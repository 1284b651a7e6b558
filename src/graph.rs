use vstd::prelude::*;
use vstd::set_lib::{lemma_int_range, lemma_len_subset, set_int_range};
use vstd::string::StrSliceExecFns;
use crate::config::{has_service, names_unique, Service, StepnConfig};
use crate::text::texts;

verus! {

/// Service `i` names service `j` among its dependencies.
pub open spec fn depends(s: Seq<Service>, i: int, j: int) -> bool {
    &&& 0 <= i < s.len()
    &&& 0 <= j < s.len()
    &&& exists|k: int|
        0 <= k < s[i].depends_on@.len() && #[trigger] s[i].depends_on@[k]@ == s[j].name@
}

/// Every dependency of every service is the name of a service.
pub open spec fn refs_resolve(s: Seq<Service>) -> bool {
    forall|i: int, k: int|
        0 <= i < s.len() && 0 <= k < s[i].depends_on@.len() ==> has_service(
            s,
            #[trigger] s[i].depends_on@[k]@,
        )
}

/// `p` is a walk that follows dependency edges.
pub open spec fn is_dep_path(s: Seq<Service>, p: Seq<int>) -> bool {
    &&& p.len() >= 1
    &&& forall|k: int| 0 <= k < p.len() - 1 ==> depends(s, #[trigger] p[k], p[k + 1])
}

/// There is a walk along dependency edges from `a` to `b`.
pub open spec fn reaches(s: Seq<Service>, a: int, b: int) -> bool {
    exists|p: Seq<int>| #[trigger] is_dep_path(s, p) && p[0] == a && p[p.len() - 1] == b
}

/// Some service depends, directly or through others, on itself.
pub open spec fn has_cycle(s: Seq<Service>) -> bool {
    exists|p: Seq<int>| #[trigger] is_dep_path(s, p) && p.len() >= 2 && p[0] == p[p.len() - 1]
}

pub open spec fn acyclic(s: Seq<Service>) -> bool {
    !has_cycle(s)
}

/// Why a configuration, or a request against it, is refused.
pub enum ConfigError {
    /// `service` depends on `dependency`, which is not defined.
    MissingDependency { service: String, dependency: String },
    /// The edge `service -> dependency` closes a dependency cycle.
    Cycle { service: String, dependency: String },
    /// `name` was requested but is not defined; `valid` lists the defined names.
    UnknownService { name: String, valid: Vec<String> },
}

/// `g` lists, for each service, the positions of its dependencies.
pub open spec fn matches_graph(s: Seq<Service>, g: Seq<Vec<usize>>) -> bool {
    &&& g.len() == s.len()
    &&& forall|i: int| 0 <= i < s.len() ==> (#[trigger] g[i])@.len() == s[i].depends_on@.len()
    &&& forall|i: int, k: int|
        0 <= i < s.len() && 0 <= k < g[i]@.len() ==> (#[trigger] g[i]@[k]) < s.len()
            && s[g[i]@[k] as int].name@ == s[i].depends_on@[k]@
}

proof fn lemma_graph_edge(s: Seq<Service>, g: Seq<Vec<usize>>, i: int, j: int)
    requires
        names_unique(s),
        matches_graph(s, g),
        0 <= i < s.len(),
        0 <= j < s.len(),
    ensures
        depends(s, i, j) <==> exists|k: int| 0 <= k < g[i]@.len() && g[i]@[k] == j,
{
    if depends(s, i, j) {
        let k = choose|k: int|
            0 <= k < s[i].depends_on@.len() && #[trigger] s[i].depends_on@[k]@ == s[j].name@;
        assert(s[g[i]@[k] as int].name@ == s[j].name@);
        assert(g[i]@[k] == j);
    }
    if exists|k: int| 0 <= k < g[i]@.len() && g[i]@[k] == j {
        let k = choose|k: int| 0 <= k < g[i]@.len() && g[i]@[k] == j;
        assert(s[i].depends_on@[k]@ == s[j].name@);
    }
}

impl StepnConfig {
    /// Resolves every dependency name to a position, or reports the first that
    /// names no service as (service, dependency) positions.
    fn dependency_indices(&self) -> (r: Result<Vec<Vec<usize>>, (usize, usize)>)
        requires
            self.wf(),
        ensures
            r matches Ok(g) ==> matches_graph(self@, g@) && refs_resolve(self@),
            r matches Err((i, k)) ==> i < self@.len() && k < self@[i as int].depends_on@.len()
                && !has_service(self@, self@[i as int].depends_on@[k as int]@),
    {
        let n = self.len();
        let mut g: Vec<Vec<usize>> = Vec::new();
        let mut i: usize = 0;
        while i < n
            invariant
                n == self@.len(),
                self.wf(),
                i <= n,
                g@.len() == i,
                forall|a: int| 0 <= a < i ==> (#[trigger] g@[a])@.len() == self@[a].depends_on@.len(),
                forall|a: int, k: int|
                    0 <= a < i && 0 <= k < g@[a]@.len() ==> (#[trigger] g@[a]@[k]) < n
                        && self@[g@[a]@[k] as int].name@ == self@[a].depends_on@[k]@,
            decreases n - i,
        {
            let svc = self.service(i);
            let mut row: Vec<usize> = Vec::new();
            let mut k: usize = 0;
            while k < svc.depends_on.len()
                invariant
                    n == self@.len(),
                    self.wf(),
                    i < n,
                    *svc == self@[i as int],
                    k <= svc.depends_on@.len(),
                    row@.len() == k,
                    forall|b: int|
                        0 <= b < k ==> (#[trigger] row@[b]) < n && self@[row@[b] as int].name@
                            == svc.depends_on@[b]@,
                decreases svc.depends_on@.len() - k,
            {
                match self.index_of(&svc.depends_on[k]) {
                    Some(j) => {
                        row.push(j);
                    },
                    None => {
                        return Err((i, k));
                    },
                }
                k = k + 1;
            }
            g.push(row);
            proof {
                assert(g@[i as int] == row);
            }
            i = i + 1;
        }
        proof {
            assert forall|a: int, k: int|
                0 <= a < self@.len() && 0 <= k < self@[a].depends_on@.len() implies has_service(
                self@,
                #[trigger] self@[a].depends_on@[k]@,
            ) by {
                assert(self@[g@[a]@[k] as int].name@ == self@[a].depends_on@[k]@);
            }
        }
        Ok(g)
    }
}

/// The positions whose color is white (not yet visited).
spec fn whites(color: Seq<u8>) -> Set<int> {
    Set::new(|i: int| 0 <= i < color.len() && color[i] == 0)
}

proof fn lemma_whites_finite(color: Seq<u8>)
    ensures
        whites(color).finite(),
        whites(color).len() <= color.len(),
{
    lemma_int_range(0, color.len() as int);
    lemma_len_subset(whites(color), set_int_range(0, color.len() as int));
}

/// Depth-first search state: 0 unvisited, 1 on the current path, 2 finished.
/// Each finished service carries a rank larger than those of its dependencies.
struct DfsState {
    color: Vec<u8>,
    rank: Ghost<Seq<int>>,
    clock: Ghost<int>,
}

spec fn dfs_inv(s: Seq<Service>, st: DfsState, stack: Seq<int>) -> bool {
    let color = st.color@;
    let rank = st.rank@;
    &&& color.len() == s.len()
    &&& rank.len() == s.len()
    &&& forall|i: int| 0 <= i < s.len() ==> #[trigger] color[i] <= 2
    &&& forall|i: int| 0 <= i < s.len() ==> (#[trigger] color[i] == 1 <==> stack.contains(i))
    &&& forall|k: int| 0 <= k < stack.len() ==> 0 <= #[trigger] stack[k] < s.len()
    &&& forall|k: int| 0 <= k < stack.len() - 1 ==> depends(s, #[trigger] stack[k], stack[k + 1])
    &&& forall|i: int, j: int|
        #[trigger] depends(s, i, j) && color[i] == 2 ==> color[j] == 2 && rank[j] < rank[i]
    &&& forall|i: int| 0 <= i < s.len() && #[trigger] color[i] == 2 ==> rank[i] < st.clock@
}

/// Visits `u` and everything reachable from it. On `Err((a, b))` the edge
/// `a -> b` lies on a cycle.
fn visit(
    c: &StepnConfig,
    g: &Vec<Vec<usize>>,
    u: usize,
    st: &mut DfsState,
    Ghost(stack): Ghost<Seq<int>>,
    Ghost(budget): Ghost<nat>,
) -> (r: Result<(), (usize, usize)>)
    requires
        c.wf(),
        matches_graph(c@, g@),
        u < c@.len(),
        dfs_inv(c@, *old(st), stack),
        old(st).color@[u as int] == 0,
        stack.len() > 0 ==> depends(c@, stack[stack.len() - 1], u as int),
        whites(old(st).color@).len() <= budget,
    ensures
        r is Ok ==> {
            &&& dfs_inv(c@, *final(st), stack)
            &&& final(st).color@[u as int] == 2
            &&& forall|i: int|
                0 <= i < c@.len() && old(st).color@[i] == 2 ==> #[trigger] final(st).color@[i] == 2
            &&& forall|i: int|
                0 <= i < c@.len() && #[trigger] final(st).color@[i] == 0 ==> old(st).color@[i] == 0
        },
        r matches Err((a, b)) ==> depends(c@, a as int, b as int) && reaches(c@, b as int, a as int),
    decreases budget,
{
    let ghost c0 = st.color@;
    let ghost stack1 = stack.push(u as int);
    proof {
        lemma_whites_finite(c0);
        assert(whites(c0).contains(u as int));
    }
    st.color.set(u, 1);
    proof {
        assert forall|i: int| 0 <= i < c@.len() implies (#[trigger] st.color@[i] == 1
            <==> stack1.contains(i)) by {
            if i == u {
                assert(stack1[stack.len() as int] == i);
            } else if stack.contains(i) {
                let j = choose|j: int| 0 <= j < stack.len() && stack[j] == i;
                assert(stack1[j] == i);
            } else if stack1.contains(i) {
                let j = choose|j: int| 0 <= j < stack1.len() && stack1[j] == i;
                assert(stack[j] == i);
            }
        }
        assert(dfs_inv(c@, *st, stack1));
    }
    let n_deps = g[u].len();
    let mut k: usize = 0;
    while k < n_deps
        invariant
            c.wf(),
            matches_graph(c@, g@),
            u < c@.len(),
            n_deps == g@[u as int]@.len(),
            k <= n_deps,
            stack1 == stack.push(u as int),
            c0.len() == c@.len(),
            whites(c0).contains(u as int),
            whites(c0).finite(),
            whites(c0).len() <= budget,
            dfs_inv(c@, *st, stack1),
            st.color@[u as int] == 1,
            forall|b: int| 0 <= b < k ==> st.color@[#[trigger] g@[u as int]@[b] as int] == 2,
            forall|i: int| 0 <= i < c@.len() && c0[i] == 2 ==> #[trigger] st.color@[i] == 2,
            forall|i: int| 0 <= i < c@.len() && #[trigger] st.color@[i] == 0 ==> c0[i] == 0,
        decreases n_deps - k,
    {
        let v = g[u][k];
        proof {
            assert(c@[v as int].name@ == c@[u as int].depends_on@[k as int]@);
            assert(depends(c@, u as int, v as int));
        }
        let cv = st.color[v];
        if cv == 1 {
            proof {
                let j = choose|j: int| 0 <= j < stack1.len() && stack1[j] == v as int;
                let p = stack1.subrange(j, stack1.len() as int);
                assert forall|m: int| 0 <= m < p.len() - 1 implies depends(
                    c@,
                    #[trigger] p[m],
                    p[m + 1],
                ) by {
                    assert(p[m] == stack1[j + m]);
                    assert(p[m + 1] == stack1[j + m + 1]);
                }
                assert(is_dep_path(c@, p));
                assert(p[p.len() - 1] == u as int);
            }
            return Err((u, v));
        } else if cv == 0 {
            proof {
                lemma_whites_finite(st.color@);
                assert(whites(st.color@).subset_of(whites(c0).remove(u as int)));
                lemma_len_subset(whites(st.color@), whites(c0).remove(u as int));
            }
            let r = visit(c, g, v, st, Ghost(stack1), Ghost((budget - 1) as nat));
            if r.is_err() {
                return r;
            }
        }
        proof {
            assert forall|b: int| 0 <= b < k + 1 implies st.color@[#[trigger] g@[u as int]@[b]
                as int] == 2 by {
                if b < k {
                }
            }
        }
        k = k + 1;
    }
    let ghost rank0 = st.rank@;
    let ghost clock0 = st.clock@;
    let ghost cmid = st.color@;
    st.color.set(u, 2);
    st.rank = Ghost(st.rank@.update(u as int, st.clock@));
    st.clock = Ghost(st.clock@ + 1);
    proof {
        assert forall|i: int| 0 <= i < c@.len() implies (#[trigger] st.color@[i] == 1
            <==> stack.contains(i)) by {
            if i != u {
                assert(cmid[i] == 1 <==> stack1.contains(i));
                if stack.contains(i) {
                    let j = choose|j: int| 0 <= j < stack.len() && stack[j] == i;
                    assert(stack1[j] == i);
                } else if stack1.contains(i) {
                    let j = choose|j: int| 0 <= j < stack1.len() && stack1[j] == i;
                    assert(j < stack.len());
                    assert(stack[j] == i);
                }
            } else {
                assert(c0[i] == 0);
                assert(!stack.contains(i));
            }
        }
        assert forall|i: int, j: int| #[trigger]
            depends(c@, i, j) && st.color@[i] == 2 implies st.color@[j] == 2 && st.rank@[j]
            < st.rank@[i] by {
            if i == u {
                lemma_graph_edge(c@, g@, i, j);
                let b = choose|b: int| 0 <= b < g@[i]@.len() && g@[i]@[b] == j;
                assert(cmid[g@[u as int]@[b] as int] == 2);
            } else {
                assert(cmid[i] == 2);
                assert(cmid[j] == 2);
            }
        }
        assert forall|k2: int| 0 <= k2 < stack.len() - 1 implies depends(
            c@,
            #[trigger] stack[k2],
            stack[k2 + 1],
        ) by {
            assert(stack1[k2] == stack[k2]);
            assert(stack1[k2 + 1] == stack[k2 + 1]);
        }
        assert forall|k2: int| 0 <= k2 < stack.len() implies 0 <= #[trigger] stack[k2] < c@.len() by {
            assert(stack1[k2] == stack[k2]);
        }
    }
    Ok(())
}

proof fn lemma_rank_falls_along_path(s: Seq<Service>, st: DfsState, p: Seq<int>, m: int)
    requires
        dfs_inv(s, st, Seq::empty()),
        forall|i: int| 0 <= i < s.len() ==> #[trigger] st.color@[i] == 2,
        is_dep_path(s, p),
        1 <= m < p.len(),
    ensures
        st.rank@[p[m]] < st.rank@[p[0]],
        0 <= p[0] < s.len(),
    decreases m,
{
    assert(depends(s, p[m - 1], p[m]));
    if m > 1 {
        lemma_rank_falls_along_path(s, st, p, m - 1);
    } else {
        assert(depends(s, p[0], p[1]));
    }
}

/// A dependency edge whose target reaches its source closes a cycle.
proof fn lemma_edge_back_is_cycle(s: Seq<Service>, a: int, b: int)
    requires
        depends(s, a, b),
        reaches(s, b, a),
    ensures
        has_cycle(s),
{
    let p = choose|p: Seq<int>| #[trigger] is_dep_path(s, p) && p[0] == b && p[p.len() - 1] == a;
    let q = p.push(b);
    assert forall|k: int| 0 <= k < q.len() - 1 implies depends(s, #[trigger] q[k], q[k + 1]) by {
        if k < p.len() - 1 {
            assert(q[k] == p[k] && q[k + 1] == p[k + 1]);
        } else {
            assert(q[k] == a && q[k + 1] == b);
        }
    }
    assert(is_dep_path(s, q));
}

impl StepnConfig {
    /// Checks that every dependency names a service and that the dependency
    /// relation has no cycle, in that order.
    pub fn validate(&self) -> (r: Result<(), ConfigError>)
        requires
            self.wf(),
        ensures
            r is Ok <==> refs_resolve(self@) && acyclic(self@),
            (r matches Err(ConfigError::MissingDependency { .. })) <==> !refs_resolve(self@),
            r matches Err(ConfigError::MissingDependency { service, dependency }) ==> exists|i: int, k: int|
                0 <= i < self@.len() && 0 <= k < self@[i].depends_on@.len()
                    && self@[i].name@ == service@
                    && #[trigger] self@[i].depends_on@[k]@ == dependency@
                    && !has_service(self@, dependency@),
            r matches Err(ConfigError::Cycle { service, dependency }) ==> exists|i: int, j: int|
                #[trigger] depends(self@, i, j) && reaches(self@, j, i) && self@[i].name@ == service@
                    && self@[j].name@ == dependency@,
            !(r matches Err(ConfigError::UnknownService { .. })),
    {
        let g = match self.dependency_indices() {
            Ok(g) => g,
            Err((i, k)) => {
                let svc = self.service(i);
                return Err(
                    ConfigError::MissingDependency {
                        service: svc.name.clone(),
                        dependency: svc.depends_on[k].clone(),
                    },
                );
            },
        };
        let n = self.len();
        let mut color: Vec<u8> = Vec::new();
        let mut i: usize = 0;
        while i < n
            invariant
                i <= n,
                color@.len() == i,
                forall|a: int| 0 <= a < i ==> #[trigger] color@[a] == 0,
            decreases n - i,
        {
            color.push(0);
            i = i + 1;
        }
        let mut st = DfsState { color, rank: Ghost(Seq::new(n as nat, |a: int| 0)), clock: Ghost(0) };
        let mut r: usize = 0;
        while r < n
            invariant
                self.wf(),
                n == self@.len(),
                matches_graph(self@, g@),
                refs_resolve(self@),
                r <= n,
                dfs_inv(self@, st, Seq::empty()),
                forall|a: int| 0 <= a < r ==> #[trigger] st.color@[a] == 2,
            decreases n - r,
        {
            if st.color[r] == 0 {
                proof {
                    lemma_whites_finite(st.color@);
                }
                let ghost budget = whites(st.color@).len();
                match visit(self, &g, r, &mut st, Ghost(Seq::empty()), Ghost(budget)) {
                    Ok(()) => {},
                    Err((a, b)) => {
                        proof {
                            lemma_edge_back_is_cycle(self@, a as int, b as int);
                        }
                        return Err(
                            ConfigError::Cycle {
                                service: self.service(a).name.clone(),
                                dependency: self.service(b).name.clone(),
                            },
                        );
                    },
                }
            } else {
                assert(!Seq::<int>::empty().contains(r as int));
            }
            r = r + 1;
        }
        proof {
            if has_cycle(self@) {
                let p = choose|p: Seq<int>|
                    #[trigger] is_dep_path(self@, p) && p.len() >= 2 && p[0] == p[p.len() - 1];
                lemma_rank_falls_along_path(self@, st, p, p.len() - 1);
            }
        }
        Ok(())
    }
}

/// `set` holds every dependency of each of its members.
pub open spec fn dep_closed(s: Seq<Service>, set: Set<int>) -> bool {
    forall|i: int, j: int| set.contains(i) && #[trigger] depends(s, i, j) ==> set.contains(j)
}

/// The positions of the services whose names occur in `names`.
pub open spec fn named_set(s: Seq<Service>, names: Seq<String>) -> Set<int> {
    Set::new(
        |i: int|
            0 <= i < s.len() && exists|k: int| 0 <= k < names.len() && #[trigger] names[k]@ == s[i].name@,
    )
}

/// Service `x` lies in every dependency-closed set that holds `req`: it is a
/// member of `req` or a direct or indirect dependency of one.
pub open spec fn in_closure(s: Seq<Service>, req: Set<int>, x: int) -> bool {
    forall|set: Set<int>| #[trigger] dep_closed(s, set) && req.subset_of(set) ==> set.contains(x)
}

/// Some entry of `names` reads `x`.
pub open spec fn names_contain(names: Seq<String>, x: Seq<char>) -> bool {
    exists|k: int| 0 <= k < names.len() && #[trigger] names[k]@ == x
}

spec fn unmarked(m: Seq<bool>) -> Set<int> {
    Set::new(|i: int| 0 <= i < m.len() && !m[i])
}

proof fn lemma_unmarked_finite(m: Seq<bool>)
    ensures
        unmarked(m).finite(),
{
    lemma_int_range(0, m.len() as int);
    lemma_len_subset(unmarked(m), set_int_range(0, m.len() as int));
}

/// The set of requested services is the same whenever the requests name the same services.
pub proof fn lemma_closure_ignores_request_order(s: Seq<Service>, a: Seq<String>, b: Seq<String>)
    requires
        forall|x: Seq<char>| #[trigger] names_contain(a, x) <==> names_contain(b, x),
    ensures
        forall|x: int| in_closure(s, named_set(s, a), x) == in_closure(s, named_set(s, b), x),
{
    assert forall|i: int| named_set(s, a).contains(i) <==> named_set(s, b).contains(i) by {
        if 0 <= i < s.len() {
            assert(names_contain(a, s[i].name@) == names_contain(b, s[i].name@));
        }
    }
    assert(named_set(s, a) =~= named_set(s, b));
}

impl StepnConfig {
    /// Marks the requested services and everything they depend on, directly or not.
    /// Names that denote no service are passed over.
    pub fn dependency_closure(&self, requested: &Vec<String>) -> (r: Vec<bool>)
        requires
            self.wf(),
        ensures
            r@.len() == self@.len(),
            forall|i: int|
                0 <= i < self@.len() ==> #[trigger] r@[i] == in_closure(
                    self@,
                    named_set(self@, requested@),
                    i,
                ),
    {
        let ghost s = self@;
        let ghost req = named_set(s, requested@);
        let n = self.len();
        let mut mask: Vec<bool> = Vec::new();
        let mut i: usize = 0;
        while i < n
            invariant
                i <= n,
                mask@.len() == i,
                forall|a: int| 0 <= a < i ==> !#[trigger] mask@[a],
            decreases n - i,
        {
            mask.push(false);
            i = i + 1;
        }
        let mut queue: Vec<usize> = Vec::new();
        let mut k: usize = 0;
        while k < requested.len()
            invariant
                self.wf(),
                s == self@,
                n == s.len(),
                req == named_set(s, requested@),
                k <= requested@.len(),
                mask@.len() == n,
                forall|q: int| 0 <= q < queue@.len() ==> (#[trigger] queue@[q]) < n && mask@[queue@[q] as int],
                forall|a: int| 0 <= a < n && #[trigger] mask@[a] ==> exists|q: int| 0 <= q < queue@.len() && queue@[q] == a,
                forall|a: int| 0 <= a < n && #[trigger] mask@[a] ==> in_closure(s, req, a),
                forall|a: int, b: int| #![trigger requested@[b], mask@[a]] 0 <= a < n && 0 <= b < k && requested@[b]@ == s[a].name@ ==> mask@[a],
            decreases requested@.len() - k,
        {
            match self.index_of(&requested[k]) {
                Some(j) => {
                    if !mask[j] {
                        proof {
                            assert(req.contains(j as int));
                        }
                        let ghost q0 = queue@;
                        let ghost m0 = mask@;
                        mask.set(j, true);
                        queue.push(j);
                        proof {
                            assert(queue@[queue@.len() - 1] == j);
                            assert forall|a: int| 0 <= a < n && #[trigger] mask@[a] implies exists|q: int| 0 <= q < queue@.len() && queue@[q] == a by {
                                if a != j as int {
                                    assert(m0[a]);
                                    let q = choose|q: int| 0 <= q < q0.len() && q0[q] == a;
                                    assert(queue@[q] == a);
                                }
                            }
                        }
                    }
                    proof {
                        assert forall|a: int, b: int| #![trigger requested@[b], mask@[a]] 0 <= a < n && 0 <= b < k + 1 && requested@[b]@ == s[a].name@ implies mask@[a] by {
                            if b == k {
                                assert(s[a].name@ == s[j as int].name@);
                            }
                        }
                    }
                },
                None => {},
            }
            k = k + 1;
        }
        let mut head: usize = 0;
        proof {
            lemma_unmarked_finite(mask@);
        }
        while head < queue.len()
            invariant
                self.wf(),
                s == self@,
                n == s.len(),
                req == named_set(s, requested@),
                mask@.len() == n,
                head <= queue@.len(),
                unmarked(mask@).finite(),
                forall|q: int| 0 <= q < queue@.len() ==> (#[trigger] queue@[q]) < n && mask@[queue@[q] as int],
                forall|a: int| 0 <= a < n && #[trigger] mask@[a] ==> exists|q: int| 0 <= q < queue@.len() && queue@[q] == a,
                forall|a: int| 0 <= a < n && #[trigger] mask@[a] ==> in_closure(s, req, a),
                forall|a: int| #[trigger] req.contains(a) ==> mask@[a],
                forall|q: int, b: int| 0 <= q < head && #[trigger] depends(s, queue@[q] as int, b) ==> mask@[b],
            decreases unmarked(mask@).len() + queue@.len() - head,
        {
            let u = queue[head];
            let svc = self.service(u);
            let ghost measure0 = unmarked(mask@).len() + queue@.len();
            let mut d: usize = 0;
            while d < svc.depends_on.len()
                invariant
                    self.wf(),
                    s == self@,
                    n == s.len(),
                    req == named_set(s, requested@),
                    mask@.len() == n,
                    head < queue@.len(),
                    u == queue@[head as int],
                    *svc == s[u as int],
                    d <= svc.depends_on@.len(),
                    unmarked(mask@).finite(),
                    unmarked(mask@).len() + queue@.len() == measure0,
                    forall|q: int| 0 <= q < queue@.len() ==> (#[trigger] queue@[q]) < n && mask@[queue@[q] as int],
                    forall|a: int| 0 <= a < n && #[trigger] mask@[a] ==> exists|q: int| 0 <= q < queue@.len() && queue@[q] == a,
                    forall|a: int| 0 <= a < n && #[trigger] mask@[a] ==> in_closure(s, req, a),
                    forall|a: int| #[trigger] req.contains(a) ==> mask@[a],
                    forall|q: int, b: int| 0 <= q < head && #[trigger] depends(s, queue@[q] as int, b) ==> mask@[b],
                    forall|a: int, e: int| #![trigger svc.depends_on@[e], mask@[a]] 0 <= a < n && 0 <= e < d && svc.depends_on@[e]@ == s[a].name@ ==> mask@[a],
                decreases svc.depends_on@.len() - d,
            {
                match self.index_of(&svc.depends_on[d]) {
                    Some(v) => {
                        if !mask[v] {
                            proof {
                                assert(depends(s, u as int, v as int));
                                assert forall|set: Set<int>| #[trigger] dep_closed(s, set) && req.subset_of(set) implies set.contains(v as int) by {
                                    assert(set.contains(u as int));
                                }
                                assert(unmarked(mask@).contains(v as int));
                                assert(unmarked(mask@.update(v as int, true)) =~= unmarked(mask@).remove(v as int));
                            }
                            let ghost q0 = queue@;
                            let ghost m0 = mask@;
                            mask.set(v, true);
                            queue.push(v);
                            proof {
                                assert(queue@[queue@.len() - 1] == v);
                                assert forall|a: int| 0 <= a < n && #[trigger] mask@[a] implies exists|q: int| 0 <= q < queue@.len() && queue@[q] == a by {
                                    if a != v as int {
                                        assert(m0[a]);
                                        let q = choose|q: int| 0 <= q < q0.len() && q0[q] == a;
                                        assert(queue@[q] == a);
                                    }
                                }
                            }
                        }
                        proof {
                            assert forall|a: int, e: int| #![trigger svc.depends_on@[e], mask@[a]] 0 <= a < n && 0 <= e < d + 1 && svc.depends_on@[e]@ == s[a].name@ implies mask@[a] by {
                                if e == d {
                                    assert(s[a].name@ == s[v as int].name@);
                                }
                            }
                        }
                    },
                    None => {},
                }
                d = d + 1;
            }
            head = head + 1;
            proof {
                assert forall|q: int, b: int| 0 <= q < head && #[trigger] depends(s, queue@[q] as int, b) implies mask@[b] by {
                    if q == head - 1 {
                        let e = choose|e: int| 0 <= e < s[u as int].depends_on@.len() && #[trigger] s[u as int].depends_on@[e]@ == s[b].name@;
                        assert(svc.depends_on@[e]@ == s[b].name@);
                    }
                }
            }
        }
        proof {
            let m = Set::new(|a: int| 0 <= a < n && mask@[a]);
            assert forall|a: int, b: int| m.contains(a) && #[trigger] depends(s, a, b) implies m.contains(b) by {
                let q = choose|q: int| 0 <= q < queue@.len() && queue@[q] == a;
                assert(depends(s, queue@[q] as int, b));
            }
            assert(dep_closed(s, m));
            assert(req.subset_of(m));
            assert forall|a: int| 0 <= a < n implies #[trigger] mask@[a] == in_closure(s, req, a) by {
                if in_closure(s, req, a) {
                    assert(m.contains(a));
                }
            }
        }
        mask
    }
}

/// `a` comes no later than `b` in the order of their characters' code points,
/// a prefix first.
pub open spec fn lex_le(a: Seq<char>, b: Seq<char>) -> bool
    decreases a.len(),
{
    if a.len() == 0 {
        true
    } else if b.len() == 0 {
        false
    } else if (a[0] as u32) != (b[0] as u32) {
        (a[0] as u32) < (b[0] as u32)
    } else {
        lex_le(a.drop_first(), b.drop_first())
    }
}

proof fn lemma_lex_total(a: Seq<char>, b: Seq<char>)
    ensures
        lex_le(a, b) || lex_le(b, a),
    decreases a.len(),
{
    if a.len() > 0 && b.len() > 0 && (a[0] as u32) == (b[0] as u32) {
        lemma_lex_total(a.drop_first(), b.drop_first());
    }
}

proof fn lemma_lex_trans(a: Seq<char>, b: Seq<char>, c: Seq<char>)
    requires
        lex_le(a, b),
        lex_le(b, c),
    ensures
        lex_le(a, c),
    decreases a.len(),
{
    if a.len() > 0 && b.len() > 0 && c.len() > 0 && (a[0] as u32) == (b[0] as u32) && (b[0] as u32) == (c[0] as u32) {
        lemma_lex_trans(a.drop_first(), b.drop_first(), c.drop_first());
    }
}

/// Compares two strings character by character.
fn str_le(a: &str, b: &str) -> (r: bool)
    ensures
        r == lex_le(a@, b@),
{
    let la = a.unicode_len();
    let lb = b.unicode_len();
    let mut i: usize = 0;
    proof {
        assert(a@.skip(0) =~= a@);
        assert(b@.skip(0) =~= b@);
    }
    while i < la && i < lb
        invariant
            la == a@.len(),
            lb == b@.len(),
            i <= la,
            i <= lb,
            lex_le(a@, b@) == lex_le(a@.skip(i as int), b@.skip(i as int)),
        decreases la - i,
    {
        let ca = a.get_char(i);
        let cb = b.get_char(i);
        proof {
            assert(a@.skip(i as int)[0] == ca);
            assert(b@.skip(i as int)[0] == cb);
        }
        if (ca as u32) != (cb as u32) {
            return (ca as u32) < (cb as u32);
        }
        proof {
            assert(a@.skip(i as int).drop_first() =~= a@.skip(i + 1));
            assert(b@.skip(i as int).drop_first() =~= b@.skip(i + 1));
        }
        i = i + 1;
    }
    proof {
        if i == la {
            assert(a@.skip(i as int).len() == 0);
        } else {
            assert(b@.skip(i as int).len() == 0);
        }
    }
    i == la
}

/// The services that list `target` among their dependencies.
pub open spec fn is_dependent(s: Seq<Service>, i: int, target: Seq<char>) -> bool {
    0 <= i < s.len() && exists|k: int| 0 <= k < s[i].depends_on@.len() && #[trigger] s[i].depends_on@[k]@ == target
}

/// `v` is in ascending order.
pub open spec fn sorted_texts(v: Seq<Seq<char>>) -> bool {
    forall|i: int, j: int| 0 <= i < j < v.len() ==> lex_le(#[trigger] v[i], #[trigger] v[j])
}

impl StepnConfig {
    /// The names of the services that directly depend on `name`, in
    /// ascending order.
    pub fn dependents_of(&self, name: &String) -> (r: Vec<String>)
        ensures
            sorted_texts(texts(r@)),
            forall|x: Seq<char>| #[trigger] texts(r@).contains(x) <==> exists|i: int| #[trigger] is_dependent(self@, i, name@) && self@[i].name@ == x,
    {
        let mut r: Vec<String> = Vec::new();
        let mut i: usize = 0;
        while i < self.len()
            invariant
                i <= self@.len(),
                sorted_texts(texts(r@)),
                forall|x: Seq<char>| #[trigger] texts(r@).contains(x) <==> exists|j: int| 0 <= j < i && #[trigger] is_dependent(self@, j, name@) && self@[j].name@ == x,
            decreases self@.len() - i,
        {
            let svc = self.service(i);
            let mut found = false;
            let mut k: usize = 0;
            while k < svc.depends_on.len()
                invariant
                    *svc == self@[i as int],
                    k <= svc.depends_on@.len(),
                    found == exists|m: int| 0 <= m < k && #[trigger] svc.depends_on@[m]@ == name@,
                decreases svc.depends_on@.len() - k,
            {
                if svc.depends_on[k] == *name {
                    found = true;
                }
                k = k + 1;
            }
            let ghost before = texts(r@);
            if found {
                let nm = svc.name.clone();
                let mut p: usize = 0;
                while p < r.len() && str_le(r[p].as_str(), nm.as_str())
                    invariant
                        r@.len() == before.len(),
                        texts(r@) == before,
                        p <= r@.len(),
                        forall|q: int| 0 <= q < p ==> lex_le(#[trigger] before[q], nm@),
                    decreases r@.len() - p,
                {
                    p = p + 1;
                }
                proof {
                    if p < r@.len() {
                        lemma_lex_total(before[p as int], nm@);
                    }
                }
                r.insert(p, nm);
                proof {
                    let after = texts(r@);
                    assert(after =~= before.insert(p as int, svc.name@));
                    assert forall|a: int, b: int| 0 <= a < b < after.len() implies lex_le(#[trigger] after[a], #[trigger] after[b]) by {
                        if b < p {
                        } else if b == p {
                        } else if a < p {
                            assert(after[b] == before[b - 1]);
                            lemma_lex_total(before[p as int], svc.name@);
                            assert(lex_le(before[p as int], before[b - 1]) || p == b - 1);
                            lemma_lex_trans(after[a], svc.name@, before[p as int]);
                            if p != b - 1 {
                                lemma_lex_trans(after[a], before[p as int], before[b - 1]);
                            }
                        } else if a == p {
                            assert(after[b] == before[b - 1]);
                            if p != b - 1 {
                                lemma_lex_trans(svc.name@, before[p as int], before[b - 1]);
                            }
                        } else {
                            assert(after[a] == before[a - 1]);
                            assert(after[b] == before[b - 1]);
                        }
                    }
                    assert forall|x: Seq<char>| #[trigger] after.contains(x) <==> exists|j: int| 0 <= j < i + 1 && #[trigger] is_dependent(self@, j, name@) && self@[j].name@ == x by {
                        if after.contains(x) {
                            let m = choose|m: int| 0 <= m < after.len() && after[m] == x;
                            if m < p {
                                assert(before[m] == x);
                                assert(before.contains(x));
                            } else if m > p {
                                assert(before[m - 1] == x);
                                assert(before.contains(x));
                            } else {
                                let w = choose|w: int| 0 <= w < k && #[trigger] svc.depends_on@[w]@ == name@;
                                assert(is_dependent(self@, i as int, name@));
                            }
                        }
                        if exists|j: int| 0 <= j < i + 1 && #[trigger] is_dependent(self@, j, name@) && self@[j].name@ == x {
                            let j = choose|j: int| 0 <= j < i + 1 && #[trigger] is_dependent(self@, j, name@) && self@[j].name@ == x;
                            if j < i {
                                assert(before.contains(x));
                                let m = choose|m: int| 0 <= m < before.len() && before[m] == x;
                                if m < p {
                                    assert(after[m] == x);
                                } else {
                                    assert(after[m + 1] == x);
                                }
                            } else {
                                assert(after[p as int] == x);
                            }
                        }
                    }
                }
            } else {
                proof {
                    assert forall|x: Seq<char>| #[trigger] texts(r@).contains(x) <==> exists|j: int| 0 <= j < i + 1 && #[trigger] is_dependent(self@, j, name@) && self@[j].name@ == x by {
                        if exists|j: int| 0 <= j < i + 1 && #[trigger] is_dependent(self@, j, name@) && self@[j].name@ == x {
                            let j = choose|j: int| 0 <= j < i + 1 && #[trigger] is_dependent(self@, j, name@) && self@[j].name@ == x;
                            if j == i {
                                let w = choose|w: int| 0 <= w < self@[j].depends_on@.len() && #[trigger] self@[j].depends_on@[w]@ == name@;
                                assert(svc.depends_on@[w]@ == name@);
                            }
                        }
                    }
                }
            }
            i = i + 1;
        }
        r
    }
}

} // verus!
