use vstd::prelude::*;

verus! {

/// Someone living in the housing unit, identified by name.
#[derive(Debug, Clone, Hash)]
pub struct Roommate(String);

impl View for Roommate {
    type V = Seq<char>;

    closed spec fn view(&self) -> Seq<char> {
        self.0@
    }
}

impl PartialEq for Roommate {
    fn eq(&self, other: &Roommate) -> (r: bool) {
        self.0 == other.0
    }
}

impl vstd::std_specs::cmp::PartialEqSpecImpl for Roommate {
    open spec fn obeys_eq_spec() -> bool {
        true
    }

    open spec fn eq_spec(&self, other: &Roommate) -> bool {
        self@ == other@
    }
}

impl Eq for Roommate {}

impl Roommate {
    /// Creates a new `Roommate` with the given name.
    pub fn new(name: &str) -> (r: Roommate)
        ensures
            r@ == name@,
    {
        Roommate(name.to_owned())
    }

    /// Returns the roommate's name.
    pub fn name(&self) -> (r: &str)
        ensures
            r@ == self@,
    {
        self.0.as_str()
    }

    /// Returns a second `Roommate` with the same name.
    pub fn copy(&self) -> (r: Roommate)
        ensures
            r@ == self@,
    {
        Roommate(self.0.clone())
    }

    /// Returns the roommate's name as an owned string.
    pub fn to_string(&self) -> (r: String)
        ensures
            r@ == self@,
    {
        self.0.clone()
    }
}

/// The names of a sequence of roommates, in order.
pub open spec fn names_of(members: Seq<Roommate>) -> Seq<Seq<char>> {
    members.map_values(|r: Roommate| r@)
}

/// The contents of a sequence of string slices.
pub open spec fn views_of(names: Seq<&str>) -> Seq<Seq<char>> {
    names.map_values(|s: &str| s@)
}

/// The names of `names` in the order in which each first occurs, each once.
pub open spec fn first_seen(names: Seq<Seq<char>>) -> Seq<Seq<char>>
    decreases names.len(),
{
    if names.len() == 0 {
        Seq::empty()
    } else {
        let before = first_seen(names.drop_last());
        if before.contains(names.last()) {
            before
        } else {
            before.push(names.last())
        }
    }
}

/// Whether no name occurs twice in `names`.
pub open spec fn distinct_names(names: Seq<Seq<char>>) -> bool {
    forall|i: int, j: int| 0 <= i < j < names.len() ==> names[i] != names[j]
}

/// A collection of [`Roommate`]s, each name at most once, kept in the order
/// in which they were first given.
pub struct RoommateGroup {
    members: Vec<Roommate>,
}

impl View for RoommateGroup {
    type V = Seq<Seq<char>>;

    closed spec fn view(&self) -> Seq<Seq<char>> {
        names_of(self.members@)
    }
}

impl RoommateGroup {
    #[verifier::type_invariant]
    spec fn inv(&self) -> bool {
        &&& self.members.len() <= u32::MAX
        &&& distinct_names(self@)
    }

    /// Creates a group from a list of names; a repeated name is kept once.
    pub fn new(names: Vec<&str>) -> (r: RoommateGroup)
        requires
            names.len() <= u32::MAX,
        ensures
            r@ == first_seen(views_of(names@)),
            distinct_names(r@),
            forall|i: int| 0 <= i < names.len() ==> r@.contains(#[trigger] names[i]@),
            forall|k: int| 0 <= k < r@.len() ==> views_of(names@).contains(#[trigger] r@[k]),
    {
        let mut members: Vec<Roommate> = Vec::new();
        let mut i: usize = 0;
        proof {
            assert(views_of(names@).take(0) =~= Seq::<Seq<char>>::empty());
            assert(names_of(members@) =~= Seq::<Seq<char>>::empty());
        }
        while i < names.len()
            invariant
                i <= names.len() <= u32::MAX,
                members.len() <= i,
                names_of(members@) == first_seen(views_of(names@).take(i as int)),
                distinct_names(names_of(members@)),
                forall|j: int| 0 <= j < i ==> names_of(members@).contains(#[trigger] names[j]@),
                forall|k: int| 0 <= k < members.len() ==> exists|j: int| 0 <= j < i && names[j]@ == #[trigger] names_of(members@)[k],
            decreases names.len() - i,
        {
            let candidate = Roommate::new(names[i]);
            let ghost before = names_of(members@);
            proof {
                let vs = views_of(names@);
                assert(vs.take(i as int + 1).drop_last() =~= vs.take(i as int));
                assert(vs.take(i as int + 1).last() == names[i as int]@);
            }
            if position_of(&members, &candidate).is_none() {
                members.push(candidate);
                proof {
                    let after = names_of(members@);
                    assert(after == before.push(names[i as int]@));
                    assert forall|j: int| 0 <= j <= i implies after.contains(#[trigger] names[j]@) by {
                        if j < i {
                            let k = choose|k: int| 0 <= k < before.len() && before[k] == names[j]@;
                            assert(after[k] == names[j]@);
                        } else {
                            assert(after[before.len() as int] == names[j]@);
                        }
                    }
                    assert forall|k: int| 0 <= k < members.len() implies exists|j: int| 0 <= j < i + 1 && names[j]@ == #[trigger] after[k] by {
                        if k < before.len() {
                            assert(after[k] == before[k]);
                        } else {
                            assert(names[i as int]@ == after[k]);
                        }
                    }
                }
            } else {
                proof {
                    assert forall|j: int| 0 <= j <= i implies before.contains(#[trigger] names[j]@) by {
                        if j == i {
                            let k = choose|k: int| 0 <= k < before.len() && before[k] == candidate@;
                            assert(before[k] == names[j]@);
                        }
                    }
                }
            }
            i += 1;
        }
        assert(views_of(names@).take(i as int) =~= views_of(names@));
        let r = RoommateGroup { members };
        assert forall|k: int| 0 <= k < r@.len() implies views_of(names@).contains(#[trigger] r@[k]) by {
            let j = choose|j: int| 0 <= j < names.len() && names[j]@ == names_of(r.members@)[k];
            assert(views_of(names@)[j] == r@[k]);
        }
        r
    }

    /// Returns the number of `Roommate`s in the group.
    pub fn count(&self) -> (r: u32)
        ensures
            r as int == self@.len(),
    {
        proof {
            use_type_invariant(self);
        }
        self.members.len() as u32
    }

    /// Returns the roommates of the group, in order.
    pub fn iter(&self) -> (r: &Vec<Roommate>)
        ensures
            names_of(r@) == self@,
            distinct_names(self@),
            self@.len() <= u32::MAX,
    {
        proof {
            use_type_invariant(self);
        }
        &self.members
    }

    /// Returns the roommate with the given name, if it is in the group.
    pub fn borrow_by_name(&self, name: &str) -> (r: Option<&Roommate>)
        ensures
            r.is_some() <==> self@.contains(name@),
            r.is_some() ==> r.unwrap()@ == name@,
    {
        let probe = Roommate::new(name);
        match position_of(&self.members, &probe) {
            Some(i) => Some(&self.members[i]),
            None => None,
        }
    }
}

/// Returns the index of the roommate named like `who`, if there is one.
pub(crate) fn position_of(members: &Vec<Roommate>, who: &Roommate) -> (r: Option<usize>)
    ensures
        r.is_some() <==> names_of(members@).contains(who@),
        r.is_some() ==> r.unwrap() < members.len() && members[r.unwrap() as int]@ == who@,
        r.is_none() ==> forall|k: int| 0 <= k < members.len() ==> members[k]@ != who@,
{
    let mut i: usize = 0;
    while i < members.len()
        invariant
            i <= members.len(),
            forall|k: int| 0 <= k < i ==> members[k]@ != who@,
        decreases members.len() - i,
    {
        if members[i] == *who {
            proof {
                assert(names_of(members@)[i as int] == who@);
            }
            return Some(i);
        }
        i += 1;
    }
    proof {
        let names = names_of(members@);
        if names.contains(who@) {
            let k = choose|k: int| 0 <= k < names.len() && names[k] == who@;
            assert(members[k]@ == who@);
        }
    }
    None
}

} // verus!
