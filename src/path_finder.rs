use vstd::prelude::*;
use crate::ast::IndexLink;

verus! {

/// A link of the topology: from the entity `from`, the join `link` leads to
/// `link.qualified_index`.
#[derive(Debug)]
pub struct LinkEdge {
    pub from: String,
    pub link: IndexLink,
}

/// The entity a link of the topology leads to.
pub open spec fn edge_target(e: LinkEdge) -> Seq<char> {
    e.link.qualified_index@
}

/// Whether `target` can be reached from `a` over at most `n` links.
pub open spec fn reaches_within(links: Seq<LinkEdge>, a: Seq<char>, target: Seq<char>, n: nat) -> bool
    decreases n,
{
    a == target || (n > 0 && exists|j: int|
        0 <= j < links.len() && #[trigger] links[j].from@ == a && reaches_within(
            links,
            edge_target(links[j]),
            target,
            (n - 1) as nat,
        ))
}

/// Whether `n` is the least number of links over which `target` can be
/// reached from `a`, and at most the number of links in the topology (a
/// shortest path never passes an entity twice, so it has no more).
pub open spec fn is_hop_count(links: Seq<LinkEdge>, a: Seq<char>, target: Seq<char>, n: nat) -> bool {
    &&& n <= links.len()
    &&& reaches_within(links, a, target, n)
    &&& forall|m: nat| m < n ==> !reaches_within(links, a, target, m)
}

/// The first link at or after position `j` that leaves `a` towards an entity
/// from which `target` can be reached over at most `m` links; -1 if none.
pub open spec fn first_step(links: Seq<LinkEdge>, a: Seq<char>, target: Seq<char>, m: nat, j: int) -> int
    decreases links.len() - j,
{
    if j < 0 || j >= links.len() {
        -1
    } else if links[j].from@ == a && reaches_within(links, edge_target(links[j]), target, m) {
        j
    } else {
        first_step(links, a, target, m, j + 1)
    }
}

/// The path of at most `n` links from `a` to `target` that takes, at each
/// entity, the first link of the topology that still reaches `target` in time.
pub open spec fn hops(links: Seq<LinkEdge>, a: Seq<char>, target: Seq<char>, n: nat) -> Seq<IndexLink>
    decreases n,
{
    if a == target || n == 0 {
        Seq::empty()
    } else {
        let j = first_step(links, a, target, (n - 1) as nat, 0);
        if j < 0 {
            Seq::empty()
        } else {
            seq![links[j].link] + hops(links, edge_target(links[j]), target, (n - 1) as nat)
        }
    }
}

/// The path the resolver chooses from `root` to `target`: a shortest one, with
/// ties broken by the order of the topology's links; none when no path exists.
pub open spec fn chosen_path(links: Seq<LinkEdge>, root: Seq<char>, target: Seq<char>) -> Option<Seq<IndexLink>> {
    if exists|n: nat| is_hop_count(links, root, target, n) {
        Some(hops(links, root, target, choose|n: nat| is_hop_count(links, root, target, n)))
    } else {
        None
    }
}

/// Whether following the links `p` in order, starting at `a`, each a link of
/// the topology that leaves the entity reached so far, ends at `target`.
pub open spec fn leads_to(links: Seq<LinkEdge>, a: Seq<char>, p: Seq<IndexLink>, target: Seq<char>) -> bool
    decreases p.len(),
{
    if p.len() == 0 {
        a == target
    } else {
        exists|j: int|
            0 <= j < links.len() && #[trigger] links[j].from@ == a && links[j].link == p[0] && leads_to(
                links,
                edge_target(links[j]),
                p.drop_first(),
                target,
            )
    }
}

proof fn lemma_first_step_found(links: Seq<LinkEdge>, a: Seq<char>, target: Seq<char>, m: nat, k: int, j: int)
    requires
        0 <= k <= j < links.len(),
        links[j].from@ == a,
        reaches_within(links, edge_target(links[j]), target, m),
    ensures
        ({
            let f = first_step(links, a, target, m, k);
            &&& k <= f < links.len()
            &&& links[f].from@ == a
            &&& reaches_within(links, edge_target(links[f]), target, m)
        }),
    decreases j - k,
{
    if !(links[k].from@ == a && reaches_within(links, edge_target(links[k]), target, m)) {
        lemma_first_step_found(links, a, target, m, k + 1, j);
    }
}

proof fn lemma_hops_lead_to_target(links: Seq<LinkEdge>, a: Seq<char>, target: Seq<char>, n: nat)
    requires
        reaches_within(links, a, target, n),
    ensures
        leads_to(links, a, hops(links, a, target, n), target),
        hops(links, a, target, n).len() <= n,
    decreases n,
{
    if a != target {
        let j = choose|j: int|
            0 <= j < links.len() && #[trigger] links[j].from@ == a && reaches_within(
                links,
                edge_target(links[j]),
                target,
                (n - 1) as nat,
            );
        lemma_first_step_found(links, a, target, (n - 1) as nat, 0, j);
        let f = first_step(links, a, target, (n - 1) as nat, 0);
        let rest = hops(links, edge_target(links[f]), target, (n - 1) as nat);
        lemma_hops_lead_to_target(links, edge_target(links[f]), target, (n - 1) as nat);
        let p = hops(links, a, target, n);
        assert(p == seq![links[f].link] + rest);
        assert(p.drop_first() =~= rest);
        assert(links[f].from@ == a && links[f].link == p[0]);
    }
}

proof fn lemma_chain_reaches(links: Seq<LinkEdge>, a: Seq<char>, p: Seq<IndexLink>, target: Seq<char>)
    requires
        leads_to(links, a, p, target),
    ensures
        reaches_within(links, a, target, p.len()),
    decreases p.len(),
{
    if p.len() > 0 {
        let j = choose|j: int|
            0 <= j < links.len() && #[trigger] links[j].from@ == a && links[j].link == p[0] && leads_to(
                links,
                edge_target(links[j]),
                p.drop_first(),
                target,
            );
        lemma_chain_reaches(links, edge_target(links[j]), p.drop_first(), target);
        if a != target {
            assert(links[j].from@ == a);
        }
    }
}

proof fn lemma_least_exists(links: Seq<LinkEdge>, a: Seq<char>, target: Seq<char>, m: nat)
    requires
        m <= links.len(),
        reaches_within(links, a, target, m),
    ensures
        exists|n: nat| is_hop_count(links, a, target, n),
    decreases m,
{
    if exists|k: nat| k < m && reaches_within(links, a, target, k) {
        let k = choose|k: nat| k < m && reaches_within(links, a, target, k);
        lemma_least_exists(links, a, target, k);
    } else {
        assert(is_hop_count(links, a, target, m));
    }
}

/// The chosen path is a chain of links of the topology from `root` to
/// `target`, and no such chain is shorter. When no path is chosen, every
/// chain from `root` to `target` has more hops than the topology has links,
/// so it passes some entity twice: no chain without repeats exists.
pub proof fn lemma_chosen_path_is_shortest_chain(links: Seq<LinkEdge>, root: Seq<char>, target: Seq<char>)
    ensures
        match chosen_path(links, root, target) {
            Some(p) => leads_to(links, root, p, target) && forall|q: Seq<IndexLink>|
                leads_to(links, root, q, target) ==> p.len() <= q.len(),
            None => forall|q: Seq<IndexLink>| leads_to(links, root, q, target) ==> q.len() > links.len(),
        },
{
    match chosen_path(links, root, target) {
        Some(p) => {
            let n = choose|n: nat| is_hop_count(links, root, target, n);
            lemma_hops_lead_to_target(links, root, target, n);
            lemma_chain_reaches(links, root, p, target);
            assert forall|q: Seq<IndexLink>| leads_to(links, root, q, target) implies p.len() <= q.len() by {
                lemma_chain_reaches(links, root, q, target);
                if q.len() < n {
                    assert(!reaches_within(links, root, target, q.len()));
                }
            }
        },
        None => {
            assert forall|q: Seq<IndexLink>| leads_to(links, root, q, target) implies q.len() > links.len() by {
                lemma_chain_reaches(links, root, q, target);
                if q.len() <= links.len() {
                    lemma_least_exists(links, root, target, q.len());
                }
            }
        },
    }
}

/// Whether some element of `v` has the view `x`.
pub open spec fn holds(v: Seq<String>, x: Seq<char>) -> bool {
    exists|i: int| 0 <= i < v.len() && #[trigger] v[i]@ == x
}

fn contains(v: &Vec<String>, x: &String) -> (r: bool)
    ensures
        r == holds(v@, x@),
{
    let mut i: usize = 0;
    while i < v.len()
        invariant
            i <= v@.len(),
            forall|k: int| 0 <= k < i ==> v@[k]@ != x@,
        decreases v@.len() - i,
    {
        if v[i] == *x {
            return true;
        }
        i = i + 1;
    }
    false
}

/// Searches a topology of links for join paths between entities.
pub struct PathFinder {
    pub links: Vec<LinkEdge>,
}

impl PathFinder {
    /// A finder over an empty topology.
    pub fn new() -> (r: PathFinder)
        ensures
            r.links@ == Seq::<LinkEdge>::empty(),
    {
        PathFinder { links: Vec::new() }
    }

    /// Adds a link to the topology, after those already there.
    pub fn push(&mut self, link: LinkEdge)
        ensures
            final(self).links@ == old(self).links@.push(link),
    {
        self.links.push(link);
    }

    /// The entities from which `target` can be reached over at most `n + 1`
    /// links, given those (`level`) from which it can be reached over `n`.
    fn next_level(&self, level: &Vec<String>, target: &String, Ghost(n): Ghost<nat>) -> (r: Vec<String>)
        requires
            forall|x: Seq<char>| holds(level@, x) <==> reaches_within(self.links@, x, target@, n),
        ensures
            forall|x: Seq<char>| holds(r@, x) <==> reaches_within(self.links@, x, target@, n + 1),
    {
        let links = &self.links;
        let mut next: Vec<String> = Vec::new();
        next.push(target.clone());
        assert forall|x: Seq<char>| holds(next@, x) <==> x == target@ by {
            if x == target@ {
                assert(next@[0]@ == x);
            }
        }
        let mut j: usize = 0;
        while j < links.len()
            invariant
                j <= links@.len(),
                *links == self.links,
                forall|x: Seq<char>| holds(level@, x) <==> reaches_within(links@, x, target@, n),
                forall|x: Seq<char>|
                    holds(next@, x) <==> (x == target@ || exists|k: int|
                        0 <= k < j && #[trigger] links@[k].from@ == x && holds(level@, edge_target(links@[k]))),
            decreases links@.len() - j,
        {
            let ghost old_next = next@;
            let ghost jj = j as int;
            let found = contains(level, &links[j].link.qualified_index);
            if found {
                next.push(links[j].from.clone());
                assert forall|x: Seq<char>| holds(next@, x) <==> holds(old_next, x) || x == links@[jj].from@ by {
                    if holds(next@, x) {
                        let i = choose|i: int| 0 <= i < next@.len() && #[trigger] next@[i]@ == x;
                        if i < old_next.len() {
                            assert(old_next[i] == next@[i]);
                        }
                    }
                    if holds(old_next, x) {
                        let i = choose|i: int| 0 <= i < old_next.len() && #[trigger] old_next[i]@ == x;
                        assert(next@[i] == old_next[i]);
                    }
                    if x == links@[jj].from@ {
                        assert(next@[old_next.len() as int]@ == x);
                    }
                }
            }
            assert(found == holds(level@, edge_target(links@[jj])));
            assert(!found ==> next@ == old_next);
            assert(found ==> forall|x: Seq<char>| holds(next@, x) <==> holds(old_next, x) || x == links@[jj].from@);
            assert forall|x: Seq<char>|
                holds(next@, x) <==> (x == target@ || exists|k: int|
                    0 <= k < jj + 1 && #[trigger] links@[k].from@ == x && holds(level@, edge_target(links@[k]))) by {
                let old_ex = exists|k: int|
                    0 <= k < jj && #[trigger] links@[k].from@ == x && holds(level@, edge_target(links@[k]));
                let new_ex = exists|k: int|
                    0 <= k < jj + 1 && #[trigger] links@[k].from@ == x && holds(level@, edge_target(links@[k]));
                assert(holds(old_next, x) <==> (x == target@ || old_ex));
                if new_ex {
                    let k = choose|k: int|
                        0 <= k < jj + 1 && #[trigger] links@[k].from@ == x && holds(level@, edge_target(links@[k]));
                    if k < jj {
                        assert(links@[k].from@ == x);
                        assert(old_ex);
                    } else {
                        assert(found);
                    }
                }
                if old_ex {
                    let k = choose|k: int|
                        0 <= k < jj && #[trigger] links@[k].from@ == x && holds(level@, edge_target(links@[k]));
                    assert(links@[k].from@ == x);
                    assert(new_ex);
                }
                if found && x == links@[jj].from@ {
                    assert(links@[jj].from@ == x);
                    assert(new_ex);
                }
            }
            j = j + 1;
        }
        assert forall|x: Seq<char>| holds(next@, x) <==> reaches_within(self.links@, x, target@, n + 1) by {
            if holds(next@, x) && x != target@ {
                let k = choose|k: int| 0 <= k < links@.len() && #[trigger] links@[k].from@ == x && holds(level@, edge_target(links@[k]));
                assert(reaches_within(links@, edge_target(links@[k]), target@, n));
            }
            if reaches_within(self.links@, x, target@, n + 1) && x != target@ {
                let k = choose|k: int|
                    0 <= k < links@.len() && #[trigger] links@[k].from@ == x && reaches_within(
                        links@,
                        edge_target(links@[k]),
                        target@,
                        n,
                    );
                assert(holds(level@, edge_target(links@[k])));
            }
        }
        next
    }

    /// The position of the first link that leaves `a` towards an entity of
    /// `level`, the entities from which `target` can be reached over `m` links.
    fn first_link_from(&self, a: &String, level: &Vec<String>, target: &String, Ghost(m): Ghost<nat>) -> (r: Option<usize>)
        requires
            forall|x: Seq<char>| holds(level@, x) <==> reaches_within(self.links@, x, target@, m),
        ensures
            match r {
                Some(j) => j < self.links@.len() && first_step(self.links@, a@, target@, m, 0) == j,
                None => first_step(self.links@, a@, target@, m, 0) == -1,
            },
    {
        let links = &self.links;
        let mut j: usize = 0;
        while j < links.len()
            invariant
                j <= links@.len(),
                *links == self.links,
                forall|x: Seq<char>| holds(level@, x) <==> reaches_within(links@, x, target@, m),
                first_step(links@, a@, target@, m, 0) == first_step(links@, a@, target@, m, j as int),
            decreases links@.len() - j,
        {
            if links[j].from == *a && contains(level, &links[j].link.qualified_index) {
                return Some(j);
            }
            j = j + 1;
        }
        None
    }

    /// A shortest path of links from the entity `root` to the entity `target`,
    /// in order from `root`; empty when they are the same entity, and `None`
    /// when `target` cannot be reached. Among shortest paths, it takes at each
    /// entity the first link of the topology that still leads to `target`.
    pub fn find_path(&self, root: &String, target: &String) -> (r: Option<Vec<IndexLink>>)
        ensures
            match r {
                Some(p) => chosen_path(self.links@, root@, target@) == Some(p@),
                None => chosen_path(self.links@, root@, target@) is None,
            },
    {
        let links = &self.links;
        let mut levels: Vec<Vec<String>> = Vec::new();
        let mut first: Vec<String> = Vec::new();
        first.push(target.clone());
        proof {
            assert forall|x: Seq<char>| holds(first@, x) <==> reaches_within(links@, x, target@, 0) by {
                if x == target@ {
                    assert(first@[0]@ == x);
                }
            }
        }
        levels.push(first);
        let mut n: usize = 0;
        while n < links.len() && !contains(&levels[n], root)
            invariant
                n <= links@.len(),
                levels@.len() == n + 1,
                *links == self.links,
                forall|k: int, x: Seq<char>|
                    0 <= k <= n ==> (#[trigger] holds(levels@[k]@, x) <==> reaches_within(links@, x, target@, k as nat)),
                forall|m: nat| m < n ==> !reaches_within(links@, root@, target@, m),
            decreases links@.len() - n,
        {
            let next = self.next_level(&levels[n], target, Ghost(n as nat));
            levels.push(next);
            n = n + 1;
        }
        if !contains(&levels[n], root) {
            assert forall|m: nat| !is_hop_count(links@, root@, target@, m) by {
                if m <= n {
                    assert(!holds(levels@[m as int]@, root@));
                }
            }
            return None;
        }
        assert(holds(levels@[n as int]@, root@));
        assert(is_hop_count(links@, root@, target@, n as nat));
        let ghost count = choose|c: nat| is_hop_count(links@, root@, target@, c);
        assert(count == n) by {
            if count < n {
            } else if count > n {
            }
        }
        let mut path: Vec<IndexLink> = Vec::new();
        let mut a: String = root.clone();
        let mut m: usize = n;
        let mut done = false;
        while m > 0 && !done && a != *target
            invariant
                m <= n,
                levels@.len() == n + 1,
                *links == self.links,
                forall|k: int, x: Seq<char>|
                    0 <= k <= n ==> (#[trigger] holds(levels@[k]@, x) <==> reaches_within(links@, x, target@, k as nat)),
                !done ==> path@ + hops(links@, a@, target@, m as nat) == hops(links@, root@, target@, n as nat),
                done ==> path@ == hops(links@, root@, target@, n as nat),
            decreases m + (if done { 0int } else { 1int }),
        {
            let ghost m1 = (m - 1) as nat;
            match self.first_link_from(&a, &levels[m - 1], target, Ghost(m1)) {
                None => {
                    assert(hops(links@, a@, target@, m as nat) =~= Seq::<IndexLink>::empty());
                    assert(path@ + Seq::<IndexLink>::empty() =~= path@);
                    done = true;
                },
                Some(j) => {
                    let ghost old_path = path@;
                    let ghost old_a = a@;
                    path.push(links[j].link.duplicate());
                    a = links[j].link.qualified_index.clone();
                    m = m - 1;
                    assert(hops(links@, old_a, target@, (m + 1) as nat) == seq![links@[j as int].link] + hops(
                        links@,
                        a@,
                        target@,
                        m as nat,
                    ));
                    assert(path@ + hops(links@, a@, target@, m as nat) =~= old_path + hops(links@, old_a, target@, (m + 1) as nat));
                },
            }
        }
        proof {
            if !done {
                assert(hops(links@, a@, target@, m as nat) =~= Seq::<IndexLink>::empty());
                assert(path@ + Seq::<IndexLink>::empty() =~= path@);
            }
        }
        Some(path)
    }
}

} // verus!
