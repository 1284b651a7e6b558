use vstd::prelude::*;
use vstd::string::StringExecFns;
use crate::text::texts;

verus! {

/// The health signal of a service: output substrings that must all appear
/// before the service counts as ready.
pub struct HealthChecker {
    pub output_trigger: Vec<String>,
}

/// One named service definition.
pub struct Service {
    pub name: String,
    pub command: String,
    pub depends_on: Vec<String>,
    pub health_checker: Option<HealthChecker>,
    pub environments: Vec<(String, String)>,
    pub delay_sec: Option<u64>,
    pub restart: bool,
    pub max_restarts: Option<u64>,
}

/// A set of services keyed by name.
pub struct StepnConfig {
    services: Vec<Service>,
}

/// The names of a sequence of services.
pub open spec fn names_of(s: Seq<Service>) -> Seq<Seq<char>> {
    s.map_values(|x: Service| x.name@)
}

/// No two services share a name.
pub open spec fn names_unique(s: Seq<Service>) -> bool {
    forall|i: int, j: int|
        0 <= i < s.len() && 0 <= j < s.len() && i != j ==> #[trigger] s[i].name@ != #[trigger] s[j].name@
}

/// Some service of `s` is called `n`.
pub open spec fn has_service(s: Seq<Service>, n: Seq<char>) -> bool {
    exists|i: int| 0 <= i < s.len() && #[trigger] s[i].name@ == n
}


/// The variable set in every child's environment to mark it as managed.
pub open spec fn marker_var() -> (Seq<char>, Seq<char>) {
    (seq!['I', 'S', '_', 'S', 'T', 'E', 'P', 'N'], seq!['t', 'r', 'u', 'e'])
}

/// The text of each (name, value) pair.
pub open spec fn pair_texts(v: Seq<(String, String)>) -> Seq<(Seq<char>, Seq<char>)> {
    v.map_values(|p: (String, String)| (p.0@, p.1@))
}

/// The output triggers a service declares; none without a health checker.
pub open spec fn trigger_texts(s: Service) -> Seq<Seq<char>> {
    match s.health_checker {
        Some(h) => texts(h.output_trigger@),
        None => Seq::empty(),
    }
}

/// A copy of each string.
pub fn clone_strings(v: &Vec<String>) -> (r: Vec<String>)
    ensures
        r@ == v@,
{
    let mut r: Vec<String> = Vec::new();
    let mut i: usize = 0;
    while i < v.len()
        invariant
            i <= v@.len(),
            r@ == v@.subrange(0, i as int),
        decreases v@.len() - i,
    {
        r.push(v[i].clone());
        proof {
            assert(r@ =~= v@.subrange(0, i + 1));
        }
        i = i + 1;
    }
    proof {
        assert(r@ =~= v@);
    }
    r
}

impl Service {
    /// The variables a child of this service gets on top of the parent's
    /// environment, in the order they are applied: the marker first, then the
    /// service's own, a later entry overriding an earlier one of the same name.
    pub fn environment(&self) -> (r: Vec<(String, String)>)
        ensures
            pair_texts(r@) == seq![marker_var()] + pair_texts(self.environments@),
    {
        let mut r: Vec<(String, String)> = Vec::new();
        r.push((String::from_str("IS_STEPN"), String::from_str("true")));
        proof {
            reveal_strlit("IS_STEPN");
            reveal_strlit("true");
            assert("IS_STEPN"@ =~= marker_var().0);
            assert("true"@ =~= marker_var().1);
            assert(pair_texts(r@)[0] == marker_var());
            assert(pair_texts(r@) =~= seq![marker_var()]);
        }
        let mut i: usize = 0;
        while i < self.environments.len()
            invariant
                i <= self.environments@.len(),
                r@.len() == i + 1,
                pair_texts(r@) == seq![marker_var()] + pair_texts(self.environments@.subrange(0, i as int)),
            decreases self.environments@.len() - i,
        {
            let (k, v) = &self.environments[i];
            let ghost r0 = r@;
            r.push((k.clone(), v.clone()));
            proof {
                assert(pair_texts(r@)[r0.len() as int] == (k@, v@));
                assert forall|j: int| 0 <= j < r0.len() implies pair_texts(r@)[j] == pair_texts(r0)[j] by {
                    assert(r@[j] == r0[j]);
                }
                let want = seq![marker_var()] + pair_texts(self.environments@.subrange(0, i + 1));
                let had = seq![marker_var()] + pair_texts(self.environments@.subrange(0, i as int));
                assert forall|j: int| 0 <= j < r@.len() implies pair_texts(r@)[j] == want[j] by {
                    if j < r0.len() {
                        assert(pair_texts(r0)[j] == had[j]);
                        if j > 0 {
                            assert(self.environments@.subrange(0, i as int)[j - 1] == self.environments@[j - 1]);
                        }
                    }
                }
                assert(pair_texts(r@) =~= want);
            }
            i = i + 1;
        }
        proof {
            assert(self.environments@.subrange(0, self.environments@.len() as int) =~= self.environments@);
        }
        r
    }

    /// The declared output triggers.
    pub fn triggers(&self) -> (r: Vec<String>)
        ensures
            texts(r@) == trigger_texts(*self),
    {
        match &self.health_checker {
            Some(h) => clone_strings(&h.output_trigger),
            None => {
                let r: Vec<String> = Vec::new();
                proof {
                    assert(texts(r@) =~= Seq::empty());
                }
                r
            },
        }
    }
}

impl StepnConfig {
    /// The services, in insertion order.
    pub closed spec fn view(&self) -> Seq<Service> {
        self.services@
    }

    pub open spec fn wf(&self) -> bool {
        names_unique(self@)
    }

    /// A configuration without services.
    pub fn new() -> (r: StepnConfig)
        ensures
            r.wf(),
            r@.len() == 0,
    {
        StepnConfig { services: Vec::new() }
    }

    /// The number of services.
    pub fn len(&self) -> (r: usize)
        ensures
            r == self@.len(),
    {
        self.services.len()
    }

    /// The service at position `i`.
    pub fn service(&self, i: usize) -> (r: &Service)
        requires
            i < self@.len(),
        ensures
            *r == self@[i as int],
    {
        &self.services[i]
    }

    /// The names of the services, in order.
    pub fn names(&self) -> (r: Vec<String>)
        ensures
            texts(r@) == names_of(self@),
    {
        let mut r: Vec<String> = Vec::new();
        let mut i: usize = 0;
        while i < self.services.len()
            invariant
                i <= self.services@.len(),
                r@.len() == i,
                texts(r@) == names_of(self.services@.subrange(0, i as int)),
            decreases self.services@.len() - i,
        {
            let ghost r0 = r@;
            let nm = self.services[i].name.clone();
            r.push(nm);
            proof {
                assert(texts(r@)[r0.len() as int] == self.services@[i as int].name@);
                assert forall|j: int| 0 <= j < r0.len() implies texts(r@)[j] == texts(r0)[j] by {
                    assert(r@[j] == r0[j]);
                }
                assert forall|j: int| 0 <= j < r@.len() implies texts(r@)[j] == names_of(self.services@.subrange(0, i + 1))[j] by {
                    if j < r0.len() {
                        assert(texts(r0)[j] == names_of(self.services@.subrange(0, i as int))[j]);
                    }
                }
                assert(texts(r@) =~= names_of(self.services@.subrange(0, i + 1)));
            }
            i = i + 1;
        }
        proof {
            assert(self.services@.subrange(0, self.services@.len() as int) =~= self.services@);
        }
        r
    }

    /// The position of the service called `name`, if there is one.
    pub fn index_of(&self, name: &String) -> (r: Option<usize>)
        requires
            self.wf(),
        ensures
            r is None <==> !has_service(self@, name@),
            r matches Some(i) ==> i < self@.len() && self@[i as int].name@ == name@,
    {
        let mut i: usize = 0;
        while i < self.services.len()
            invariant
                i <= self.services@.len(),
                forall|j: int| 0 <= j < i ==> self.services@[j].name@ != name@,
            decreases self.services@.len() - i,
        {
            if self.services[i].name == *name {
                return Some(i);
            }
            i = i + 1;
        }
        None
    }

    /// Adds `service`, replacing the service of the same name if there is one.
    pub fn insert(&mut self, service: Service)
        requires
            old(self).wf(),
        ensures
            final(self).wf(),
            has_service(old(self)@, service.name@) ==> exists|i: int|
                0 <= i < old(self)@.len() && old(self)@[i].name@ == service.name@
                    && final(self)@ == old(self)@.update(i, service),
            !has_service(old(self)@, service.name@) ==> final(self)@ == old(self)@.push(service),
    {
        match self.index_of(&service.name) {
            Some(i) => {
                self.services.set(i, service);
            },
            None => {
                self.services.push(service);
            },
        }
    }
}

} // verus!
