use vstd::prelude::*;

use crate::error::ParamError;

verus! {

/// Holds, per parameter, its name and its domain. A parameter's canonical
/// index is its position here, assigned at registration in first-seen order
/// and stable for the life of the run.
pub struct ParameterRegistry {
    names: Vec<String>,
    domains: Vec<Vec<u32>>,
}

impl ParameterRegistry {
    /// Registered names, in canonical index order.
    pub closed spec fn spec_names(self) -> Seq<Seq<char>> {
        self.names@.map_values(|n: String| n@)
    }

    /// Registered domains, in canonical index order.
    pub closed spec fn spec_domains(self) -> Seq<Seq<u32>> {
        self.domains@.map_values(|d: Vec<u32>| d@)
    }

    /// Canonical index of a name: the position of its first occurrence.
    pub open spec fn spec_index_of(self, name: Seq<char>) -> Option<int> {
        self.spec_names().index_of_first(name)
    }

    pub open spec fn spec_has(self, name: Seq<char>) -> bool {
        self.spec_names().contains(name)
    }

    /// Well-formed: the name-to-index mapping is injective (no name twice),
    /// and every domain is non-empty and duplicate-free, as `build_domain`
    /// delivers it.
    pub open spec fn wf(self) -> bool {
        &&& self.spec_names().no_duplicates()
        &&& self.spec_names().len() == self.spec_domains().len()
        &&& forall|i: int|
            0 <= i < self.spec_domains().len() ==> 1 <= (#[trigger] self.spec_domains()[i]).len()
                && self.spec_domains()[i].no_duplicates()
    }

    /// An empty registry.
    pub fn new() -> (r: ParameterRegistry)
        ensures
            r.wf(),
            r.spec_names() == Seq::<Seq<char>>::empty(),
            r.spec_domains() == Seq::<Seq<u32>>::empty(),
    {
        let r = ParameterRegistry { names: Vec::new(), domains: Vec::new() };
        proof {
            assert(r.spec_names() =~= Seq::<Seq<char>>::empty());
            assert(r.spec_domains() =~= Seq::<Seq<u32>>::empty());
        }
        r
    }

    /// Number of registered parameters.
    pub fn count(&self) -> (r: usize)
        ensures
            r == self.spec_names().len(),
    {
        self.names.len()
    }

    /// Position of the first entry named `name`, if any.
    fn find_name(&self, name: &String) -> (r: Option<usize>)
        ensures
            match r {
                Some(i) => self.spec_index_of(name@) == Some(i as int) && i
                    < self.spec_names().len() && self.spec_has(name@),
                None => !self.spec_has(name@),
            },
    {
        let n = self.names.len();
        let mut i: usize = 0;
        while i < n
            invariant
                n == self.names@.len(),
                i <= n,
                forall|j: int| 0 <= j < i ==> self.spec_names()[j] != name@,
            decreases n - i,
        {
            if self.names[i] == *name {
                proof {
                    self.spec_names().index_of_first_ensures(name@);
                    assert(self.spec_names()[i as int] == name@);
                }
                return Some(i);
            }
            i = i + 1;
        }
        proof {
            self.spec_names().index_of_first_ensures(name@);
        }
        None
    }

    /// Registers a parameter under the next canonical index (the current
    /// count). A name registered twice is refused with
    /// `ParamError::DuplicateParameter`, and the registry is unchanged.
    pub fn register(&mut self, name: String, domain: Vec<u32>) -> (r: Result<(), ParamError>)
        requires
            old(self).wf(),
            1 <= domain@.len(),
            domain@.no_duplicates(),
        ensures
            final(self).wf(),
            r is Ok <==> !old(self).spec_has(name@),
            r is Err ==> r == Err::<(), ParamError>(ParamError::DuplicateParameter)
                && final(self).spec_names() == old(self).spec_names() && final(self).spec_domains()
                == old(self).spec_domains(),
            r is Ok ==> {
                &&& final(self).spec_names() == old(self).spec_names().push(name@)
                &&& final(self).spec_domains() == old(self).spec_domains().push(domain@)
                &&& final(self).spec_index_of(name@) == Some(old(self).spec_names().len() as int)
            },
    {
        match self.find_name(&name) {
            Some(_) => Err(ParamError::DuplicateParameter),
            None => {
                let ghost old_names = self.spec_names();
                let ghost old_domains = self.spec_domains();
                let ghost name_view = name@;
                self.names.push(name);
                self.domains.push(domain);
                proof {
                    assert(self.spec_names() =~= old_names.push(name_view));
                    assert(self.spec_domains() =~= old_domains.push(domain@));
                    self.spec_names().index_of_first_ensures(name_view);
                    let found = self.spec_names().index_of_first(name_view);
                    assert(self.spec_names()[old_names.len() as int] == name_view);
                    assert(found is Some);
                    let i = found->Some_0;
                    assert(i <= old_names.len());
                    assert(i == old_names.len()) by {
                        if i < old_names.len() {
                            assert(old_names[i] == name_view);
                            assert(old_names.contains(name_view));
                        }
                    }
                    assert(self.spec_names().no_duplicates());
                }
                Ok(())
            },
        }
    }

    /// The domain of a registered name; `ParamError::UnknownParameter` for a
    /// name never registered.
    pub fn domain_of(&self, name: &String) -> (r: Result<&Vec<u32>, ParamError>)
        requires
            self.wf(),
        ensures
            r is Ok <==> self.spec_has(name@),
            r matches Ok(d) ==> Some(d@) == Some(
                self.spec_domains()[self.spec_index_of(name@)->Some_0],
            ),
            r is Err ==> r == Err::<&Vec<u32>, ParamError>(ParamError::UnknownParameter),
    {
        match self.find_name(name) {
            Some(i) => Ok(&self.domains[i]),
            None => Err(ParamError::UnknownParameter),
        }
    }

    /// The canonical index of a registered name;
    /// `ParamError::UnknownParameter` for a name never registered.
    pub fn index_of(&self, name: &String) -> (r: Result<usize, ParamError>)
        ensures
            r is Ok <==> self.spec_has(name@),
            r matches Ok(i) ==> Some(i as int) == self.spec_index_of(name@),
            r is Err ==> r == Err::<usize, ParamError>(ParamError::UnknownParameter),
    {
        match self.find_name(name) {
            Some(i) => Ok(i),
            None => Err(ParamError::UnknownParameter),
        }
    }

    /// Borrow of the domains, in canonical index order.
    pub(crate) fn domains_vec(&self) -> (r: &Vec<Vec<u32>>)
        ensures
            r@.map_values(|d: Vec<u32>| d@) == self.spec_domains(),
    {
        &self.domains
    }
}

/// Law: registration assigns the indices 0, 1, ..., count-1 with no gaps and
/// no repeats — in a well-formed registry the name at position `i` has
/// canonical index exactly `i`.
pub proof fn lemma_indices_complete(r: ParameterRegistry)
    requires
        r.wf(),
    ensures
        forall|i: int|
            0 <= i < r.spec_names().len() ==> #[trigger] r.spec_index_of(r.spec_names()[i])
                == Some(i),
{
    assert forall|i: int|
        0 <= i < r.spec_names().len() implies #[trigger] r.spec_index_of(r.spec_names()[i]) == Some(
        i,
    ) by {
        let names = r.spec_names();
        names.index_of_first_ensures(names[i]);
        assert(names.contains(names[i]));
        let found = names.index_of_first(names[i]);
        assert(found is Some);
        let j = found->Some_0;
        assert(names[j] == names[i]);
        assert(j <= i);
        if j < i {
            assert(!names.no_duplicates());
        }
    }
}

} // verus!
