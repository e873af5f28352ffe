use vstd::prelude::*;

verus! {

/// Decides who may create events and who may reserve tickets.
pub struct AccessPolicy {
    organizers: Vec<String>,
}

impl View for AccessPolicy {
    /// The accounts allowed to create events.
    type V = Seq<Seq<char>>;

    closed spec fn view(&self) -> Seq<Seq<char>> {
        self.organizers@.map_values(|s: String| s@)
    }
}

/// Reservation is open to every named account.
pub open spec fn may_reserve(caller: Seq<char>) -> bool {
    caller.len() > 0
}

impl AccessPolicy {
    /// A policy under which exactly the given accounts are organizers.
    pub fn new(organizers: Vec<String>) -> (r: AccessPolicy)
        ensures
            r@ == organizers@.map_values(|s: String| s@),
    {
        AccessPolicy { organizers }
    }

    /// A policy with one organizer.
    pub fn single(organizer: String) -> (r: AccessPolicy)
        ensures
            r@ == seq![organizer@],
    {
        let mut organizers: Vec<String> = Vec::new();
        organizers.push(organizer);
        let r = AccessPolicy { organizers };
        assert(r@ =~= seq![organizer@]);
        r
    }

    /// The organizer accounts, in the order the policy was given them.
    pub fn organizers(&self) -> (r: &Vec<String>)
        ensures
            r@.map_values(|s: String| s@) == self@,
    {
        &self.organizers
    }

    /// Whether `caller` may create events.
    pub fn authorize_create(&self, caller: &String) -> (r: bool)
        ensures
            r == self@.contains(caller@),
    {
        let mut i: usize = 0;
        while i < self.organizers.len()
            invariant
                i <= self.organizers.len(),
                forall|k: int| 0 <= k < i ==> self@[k] != caller@,
            decreases self.organizers.len() - i,
        {
            if self.organizers[i] == *caller {
                assert(self@[i as int] == caller@);
                return true;
            }
            i = i + 1;
        }
        false
    }

    /// Whether `caller` may reserve tickets.
    pub fn authorize_reserve(&self, caller: &String) -> (r: bool)
        ensures
            r == may_reserve(caller@),
    {
        caller.as_str().unicode_len() > 0
    }
}

} // verus!
