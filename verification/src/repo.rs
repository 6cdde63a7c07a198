//! Extraction of commit authors from one acquired repository.
//!
//! A local clone is reduced to its commit graph: the commits, numbered, each
//! carrying its parent links and its recorded author, and the commit that
//! each branch or tag reference points to. The extraction walks the graph
//! from every reference, visits every reachable commit exactly once — shared
//! history seeded from several references is not visited twice — and yields
//! one author identity per visited commit.

use crate::authors::{ident_view, idents_view, AuthorIdentity};
use vstd::prelude::*;
use vstd::seq_lib::*;
use vstd::set_lib::{lemma_int_range, lemma_len_subset, set_int_range};

verus! {

/// One commit, reduced to what the extraction reads: the commits it points
/// back to, and the author's recorded name and email.
pub struct CommitRecord {
    pub parents: Vec<usize>,
    pub author_name: String,
    pub author_email: String,
}

/// The author recorded on one commit.
pub open spec fn author_view(c: CommitRecord) -> (Seq<char>, Seq<char>) {
    (c.author_name@, c.author_email@)
}

/// A local, checkout-free copy of one repository's commit graph: its
/// commits, numbered, and for every branch and tag reference the commit it
/// points to.
pub struct RepoData {
    pub commits: Vec<CommitRecord>,
    pub ref_targets: Vec<usize>,
}

impl RepoData {
    /// Every reference and every parent link points at a commit.
    pub open spec fn wf(&self) -> bool {
        &&& forall|k: int|
            0 <= k < self.ref_targets@.len() ==> (#[trigger] self.ref_targets@[k])
                < self.commits@.len()
        &&& forall|i: int, t: int|
            0 <= i < self.commits@.len() && 0 <= t < self.commits@[i].parents@.len() ==> (
            #[trigger] self.commits@[i].parents@[t]) < self.commits@.len()
    }
}

impl RepoData {
    /// Tests well-formedness at run time, so that a caller that built the
    /// graph from outside data can check it before extraction.
    pub fn check_wf(&self) -> (r: bool)
        ensures
            r == self.wf(),
    {
        let n = self.commits.len();
        let mut k: usize = 0;
        while k < self.ref_targets.len()
            invariant
                0 <= k <= self.ref_targets@.len(),
                n == self.commits@.len(),
                forall|j: int| 0 <= j < k ==> (#[trigger] self.ref_targets@[j]) < n,
            decreases self.ref_targets@.len() - k,
        {
            if self.ref_targets[k] >= n {
                return false;
            }
            k = k + 1;
        }
        let mut i: usize = 0;
        while i < n
            invariant
                0 <= i <= n,
                n == self.commits@.len(),
                forall|j: int, t: int|
                    0 <= j < i && 0 <= t < self.commits@[j].parents@.len() ==> (
                    #[trigger] self.commits@[j].parents@[t]) < n,
            decreases n - i,
        {
            let c = &self.commits[i];
            let pl = c.parents.len();
            let mut t: usize = 0;
            while t < pl
                invariant
                    0 <= t <= pl,
                    i < self.commits@.len(),
                    n == self.commits@.len(),
                    *c == self.commits@[i as int],
                    pl == self.commits@[i as int].parents@.len(),
                    forall|u: int|
                        0 <= u < t ==> (#[trigger] self.commits@[i as int].parents@[u]) < n,
                decreases pl - t,
            {
                if c.parents[t] >= n {
                    return false;
                }
                t = t + 1;
            }
            i = i + 1;
        }
        true
    }
}

/// A chain through the graph: every entry is a commit, and each later entry
/// is a parent of the one before it.
pub open spec fn path_ok(commits: Seq<CommitRecord>, p: Seq<usize>) -> bool {
    &&& p.len() >= 1
    &&& forall|k: int| 0 <= k < p.len() ==> (#[trigger] p[k]) < commits.len()
    &&& forall|k: int|
        0 <= k < p.len() - 1 ==> commits[#[trigger] p[k] as int].parents@.contains(p[k + 1])
}

/// A commit is reachable when some chain leads to it from a commit that a
/// branch or tag names.
pub open spec fn reachable(repo: &RepoData, i: usize) -> bool {
    exists|p: Seq<usize>|
        path_ok(repo.commits@, p) && repo.ref_targets@.contains(p[0]) && p.last() == i
}

/// The authors recorded on the reachable commits.
pub open spec fn reachable_authors(repo: &RepoData) -> Set<(Seq<char>, Seq<char>)> {
    Set::new(
        |a: (Seq<char>, Seq<char>)|
            exists|i: usize|
                #[trigger] reachable(repo, i) && a == author_view(repo.commits@[i as int]),
    )
}

/// `order` lists, without repetition, exactly the reachable commits, and
/// `out` holds their authors in that order: one identity per reachable
/// commit.
pub open spec fn extraction_order(
    repo: &RepoData,
    order: Seq<usize>,
    out: Seq<AuthorIdentity>,
) -> bool {
    &&& order.no_duplicates()
    &&& forall|i: usize| order.contains(i) <==> reachable(repo, i)
    &&& out.len() == order.len()
    &&& forall|k: int|
        0 <= k < order.len() ==> ident_view(#[trigger] out[k]) == author_view(
            repo.commits@[order[k] as int],
        )
}

/// A commit that a reference names is reachable by the one-step chain.
proof fn lemma_reachable_root(repo: &RepoData, r: usize)
    requires
        repo.wf(),
        repo.ref_targets@.contains(r),
    ensures
        reachable(repo, r),
{
    let k = choose|k: int| 0 <= k < repo.ref_targets@.len() && repo.ref_targets@[k] == r;
    let p = seq![r];
    assert(path_ok(repo.commits@, p));
    assert(repo.ref_targets@.contains(p[0]) && p.last() == r);
}

/// A reachable commit stands in the graph.
proof fn lemma_reachable_bound(repo: &RepoData, i: usize)
    requires
        repo.wf(),
        reachable(repo, i),
    ensures
        i < repo.commits@.len(),
{
    let p = choose|p: Seq<usize>|
        path_ok(repo.commits@, p) && repo.ref_targets@.contains(p[0]) && p.last() == i;
    assert(p[p.len() - 1] < repo.commits@.len());
}

/// Every parent of a reachable commit is reachable: extend the chain by
/// one step.
proof fn lemma_reachable_parent(repo: &RepoData, i: usize, par: usize)
    requires
        repo.wf(),
        reachable(repo, i),
        i < repo.commits@.len(),
        repo.commits@[i as int].parents@.contains(par),
    ensures
        reachable(repo, par),
{
    let p = choose|p: Seq<usize>|
        path_ok(repo.commits@, p) && repo.ref_targets@.contains(p[0]) && p.last() == i;
    let q = p.push(par);
    let t = choose|t: int|
        0 <= t < repo.commits@[i as int].parents@.len() && repo.commits@[i as int].parents@[t]
            == par;
    assert(par < repo.commits@.len());
    assert(path_ok(repo.commits@, q)) by {
        assert(forall|k: int| 0 <= k < p.len() ==> q[k] == #[trigger] p[k]);
        assert(q[q.len() - 1] == par);
        assert forall|k: int| 0 <= k < q.len() - 1 implies commits_link(repo.commits@, q, k) by {
            if k < p.len() - 1 {
                assert(repo.commits@[p[k] as int].parents@.contains(p[k + 1]));
            } else {
                assert(q[k] == i);
            }
        }
    }
    assert(q[0] == p[0] && q.last() == par);
}

/// The chain link at position `k`: the next entry is a parent of this one.
pub open spec fn commits_link(commits: Seq<CommitRecord>, p: Seq<usize>, k: int) -> bool {
    commits[p[k] as int].parents@.contains(p[k + 1])
}

/// A run of distinct numbers below `n` cannot be longer than `n`.
proof fn lemma_no_dups_bounded_len(s: Seq<usize>, n: nat)
    requires
        s.no_duplicates(),
        forall|k: int| 0 <= k < s.len() ==> (#[trigger] s[k]) < n,
    ensures
        s.len() <= n,
{
    let t = s.map_values(|u: usize| u as int);
    assert(t.no_duplicates()) by {
        assert forall|p: int, q: int|
            0 <= p < t.len() && 0 <= q < t.len() && p != q implies t[p] != t[q] by {
            assert(s[p] != s[q]);
        }
    }
    t.unique_seq_to_set();
    assert(t.to_set().subset_of(set_int_range(0, n as int))) by {
        assert forall|x: int| t.to_set().contains(x) implies set_int_range(
            0,
            n as int,
        ).contains(x) by {
            let k = choose|k: int| 0 <= k < t.len() && t[k] == x;
            assert(s[k] < n);
        }
    }
    lemma_int_range(0, n as int);
    lemma_len_subset(t.to_set(), set_int_range(0, n as int));
}

/// When the marked commits include every referenced commit and are closed
/// under parent links, they include the end of every chain.
proof fn lemma_path_visited(repo: &RepoData, visited: Seq<bool>, p: Seq<usize>)
    requires
        repo.wf(),
        visited.len() == repo.commits@.len(),
        path_ok(repo.commits@, p),
        repo.ref_targets@.contains(p[0]),
        visited[p[0] as int],
        forall|j: int, t: int|
            0 <= j < repo.commits@.len() && visited[j] && 0 <= t
                < repo.commits@[j].parents@.len() ==> visited[
                (#[trigger] repo.commits@[j].parents@[t]) as int],
    ensures
        visited[p.last() as int],
    decreases p.len(),
{
    if p.len() == 1 {
    } else {
        let q = p.drop_last();
        assert(path_ok(repo.commits@, q)) by {
            assert(forall|k: int| 0 <= k < q.len() ==> q[k] == #[trigger] p[k]);
            assert forall|k: int| 0 <= k < q.len() - 1 implies commits_link(
                repo.commits@,
                q,
                k,
            ) by {
                assert(repo.commits@[p[k] as int].parents@.contains(p[k + 1]));
            }
            assert(forall|k: int|
                0 <= k < q.len() - 1 ==> commits_link(repo.commits@, q, k)
                    ==> repo.commits@[q[k] as int].parents@.contains(q[k + 1]));
        }
        lemma_path_visited(repo, visited, q);
        let j = p[p.len() - 2];
        assert(visited[j as int]);
        assert(repo.commits@[j as int].parents@.contains(p[p.len() - 1]));
        let t = choose|t: int|
            0 <= t < repo.commits@[j as int].parents@.len() && repo.commits@[j as int].parents@[t]
                == p[p.len() - 1];
        assert(visited[repo.commits@[j as int].parents@[t] as int]);
    }
}

/// Walks the commit graph from every branch and tag reference and yields
/// the author recorded on each reachable commit, one identity per commit,
/// each commit weighed exactly once however many references lead to it.
#[verifier::rlimit(100)]
pub fn extract_authors(repo: &RepoData) -> (out: Vec<AuthorIdentity>)
    requires
        repo.wf(),
    ensures
        exists|order: Seq<usize>| extraction_order(repo, order, out@),
        idents_view(out@).to_set() == reachable_authors(repo),
{
    let n = repo.commits.len();
    let mut visited: Vec<bool> = Vec::new();
    let mut v: usize = 0;
    while v < n
        invariant
            0 <= v <= n,
            visited@.len() == v,
            forall|j: int| 0 <= j < v ==> !(#[trigger] visited@[j]),
        decreases n - v,
    {
        visited.push(false);
        v = v + 1;
    }
    let mut stack: Vec<usize> = Vec::new();
    let mut s: usize = 0;
    while s < repo.ref_targets.len()
        invariant
            repo.wf(),
            0 <= s <= repo.ref_targets@.len(),
            stack@ == repo.ref_targets@.take(s as int),
        decreases repo.ref_targets@.len() - s,
    {
        stack.push(repo.ref_targets[s]);
        proof {
            assert(repo.ref_targets@.take(s + 1) =~= repo.ref_targets@.take(s as int).push(
                repo.ref_targets@[s as int],
            ));
        }
        s = s + 1;
    }
    proof {
        assert(repo.ref_targets@.take(repo.ref_targets@.len() as int) =~= repo.ref_targets@);
        assert forall|k: int| 0 <= k < stack@.len() implies reachable(repo, #[trigger] stack@[k]) by {
            assert(repo.ref_targets@.contains(stack@[k]));
            lemma_reachable_root(repo, stack@[k]);
        }
        assert forall|k: int|
            0 <= k < repo.ref_targets@.len() implies visited@[#[trigger] repo.ref_targets@[k] as int]
            || stack@.contains(repo.ref_targets@[k]) by {
            assert(stack@[k] == repo.ref_targets@[k]);
        }
    }
    let mut out: Vec<AuthorIdentity> = Vec::new();
    let ghost mut order: Seq<usize> = Seq::empty();
    while stack.len() != 0
        invariant
            repo.wf(),
            n == repo.commits@.len(),
            visited@.len() == n,
            forall|k: int| 0 <= k < stack@.len() ==> reachable(repo, #[trigger] stack@[k]),
            order.no_duplicates(),
            order.len() <= n,
            forall|k: int| 0 <= k < order.len() ==> (#[trigger] order[k]) < n,
            forall|u: usize| order.contains(u) ==> reachable(repo, u),
            out@.len() == order.len(),
            forall|k: int|
                0 <= k < order.len() ==> ident_view(#[trigger] out@[k]) == author_view(
                    repo.commits@[order[k] as int],
                ),
            forall|j: int| 0 <= j < n ==> (visited@[j] <==> order.contains(j as usize)),
            forall|k: int|
                0 <= k < repo.ref_targets@.len() ==> visited@[
                    #[trigger] repo.ref_targets@[k] as int] || stack@.contains(
                    repo.ref_targets@[k],
                ),
            forall|j: int, t: int|
                0 <= j < n && visited@[j] && 0 <= t < repo.commits@[j].parents@.len() ==> visited@[
                    (#[trigger] repo.commits@[j].parents@[t]) as int] || stack@.contains(
                    repo.commits@[j].parents@[t],
                ),
        decreases n - order.len(), stack@.len(),
    {
        let ghost stack_old = stack@;
        let ghost visited_old = visited@;
        let ghost order_old = order;
        let i = stack.pop().unwrap();
        proof {
            assert(i == stack_old.last());
            assert(stack@ == stack_old.drop_last());
            assert(reachable(repo, i));
            lemma_reachable_bound(repo, i);
        }
        if !visited[i] {
            visited.set(i, true);
            let c = &repo.commits[i];
            out.push(AuthorIdentity { name: c.author_name.clone(), email: c.author_email.clone() });
            proof {
                assert(!order.contains(i));
                order = order.push(i);
                assert(order.drop_last() == order_old && order.last() == i);
                assert(order.no_duplicates()) by {
                    assert forall|p: int, q: int|
                        0 <= p < order.len() && 0 <= q < order.len() && p != q implies order[p]
                        != order[q] by {
                        if p < order.len() - 1 && q < order.len() - 1 {
                            assert(order[p] == order_old[p] && order[q] == order_old[q]);
                        } else if p == order.len() - 1 {
                            assert(order[q] == order_old[q]);
                            assert(order_old.contains(order_old[q]));
                        } else {
                            assert(order[p] == order_old[p]);
                            assert(order_old.contains(order_old[p]));
                        }
                    }
                }
                lemma_no_dups_bounded_len(order, n as nat);
            }
            let ghost stack_mid = stack@;
            let pl = c.parents.len();
            let mut t: usize = 0;
            proof {
                assert(stack_mid + repo.commits@[i as int].parents@.take(0) =~= stack_mid);
            }
            while t < pl
                invariant
                    0 <= t <= pl,
                    i < repo.commits@.len(),
                    *c == repo.commits@[i as int],
                    pl == repo.commits@[i as int].parents@.len(),
                    stack@ == stack_mid + repo.commits@[i as int].parents@.take(t as int),
                decreases pl - t,
            {
                let p = c.parents[t];
                stack.push(p);
                proof {
                    assert(repo.commits@[i as int].parents@.take(t + 1)
                        =~= repo.commits@[i as int].parents@.take(t as int).push(
                        repo.commits@[i as int].parents@[t as int],
                    ));
                    assert(stack_mid + repo.commits@[i as int].parents@.take(t + 1) =~= (stack_mid
                        + repo.commits@[i as int].parents@.take(t as int)).push(p));
                }
                t = t + 1;
            }
            proof {
                let parents = repo.commits@[i as int].parents@;
                assert(parents.take(pl as int) =~= parents);
                assert(stack@ == stack_mid + parents);
                // Everything on the stack is reachable.
                assert forall|k: int| 0 <= k < stack@.len() implies reachable(
                    repo,
                    #[trigger] stack@[k],
                ) by {
                    if k < stack_mid.len() {
                        assert(stack@[k] == stack_old[k]);
                    } else {
                        assert(stack@[k] == parents[k - stack_mid.len()]);
                        assert(parents.contains(parents[k - stack_mid.len()]));
                        lemma_reachable_parent(repo, i, stack@[k]);
                    }
                }
                // The marking and the visit order still agree.
                assert forall|j: int| 0 <= j < n implies (visited@[j] <==> order.contains(
                    j as usize,
                )) by {
                    if j == i {
                        assert(order.contains(order.last()));
                    } else {
                        assert(visited@[j] == visited_old[j]);
                        if order.contains(j as usize) {
                            let k = choose|k: int| 0 <= k < order.len() && order[k] == j as usize;
                            assert(order_old[k] == j as usize);
                            assert(order_old.contains(j as usize));
                        }
                        if order_old.contains(j as usize) {
                            let k = choose|k: int|
                                0 <= k < order_old.len() && order_old[k] == j as usize;
                            assert(order[k] == j as usize);
                        }
                    }
                }
                // Every referenced commit is marked or still pending.
                assert forall|k: int|
                    0 <= k < repo.ref_targets@.len() implies visited@[
                    #[trigger] repo.ref_targets@[k] as int] || stack@.contains(
                    repo.ref_targets@[k],
                ) by {
                    let r = repo.ref_targets@[k];
                    if !visited_old[r as int] {
                        let m = choose|m: int| 0 <= m < stack_old.len() && stack_old[m] == r;
                        if m < stack_old.len() - 1 {
                            assert(stack@[m] == r);
                        }
                    }
                }
                // Every parent of a marked commit is marked or still pending.
                assert forall|j: int, t2: int|
                    0 <= j < n && visited@[j] && 0 <= t2
                        < repo.commits@[j].parents@.len() implies visited@[
                    (#[trigger] repo.commits@[j].parents@[t2]) as int] || stack@.contains(
                    repo.commits@[j].parents@[t2],
                ) by {
                    let p = repo.commits@[j].parents@[t2];
                    if j == i {
                        assert(stack@[stack_mid.len() + t2] == p);
                    } else {
                        assert(visited_old[j]);
                        if !visited_old[p as int] {
                            let m = choose|m: int| 0 <= m < stack_old.len() && stack_old[m] == p;
                            if m < stack_old.len() - 1 {
                                assert(stack@[m] == p);
                            } else {
                                assert(p == i);
                            }
                        }
                    }
                }
            }
        } else {
            proof {
                assert forall|k: int|
                    0 <= k < repo.ref_targets@.len() implies visited@[
                    #[trigger] repo.ref_targets@[k] as int] || stack@.contains(
                    repo.ref_targets@[k],
                ) by {
                    let r = repo.ref_targets@[k];
                    if !visited@[r as int] {
                        let m = choose|m: int| 0 <= m < stack_old.len() && stack_old[m] == r;
                        if m < stack_old.len() - 1 {
                            assert(stack@[m] == r);
                        } else {
                            assert(r == i);
                        }
                    }
                }
                assert forall|j: int, t2: int|
                    0 <= j < n && visited@[j] && 0 <= t2
                        < repo.commits@[j].parents@.len() implies visited@[
                    (#[trigger] repo.commits@[j].parents@[t2]) as int] || stack@.contains(
                    repo.commits@[j].parents@[t2],
                ) by {
                    let p = repo.commits@[j].parents@[t2];
                    if !visited@[p as int] {
                        let m = choose|m: int| 0 <= m < stack_old.len() && stack_old[m] == p;
                        if m < stack_old.len() - 1 {
                            assert(stack@[m] == p);
                        } else {
                            assert(p == i);
                        }
                    }
                }
            }
        }
    }
    proof {
        // The stack is drained: marked commits are exactly the reachable
        // ones.
        assert(forall|u: usize| !stack@.contains(u)) by {
            assert forall|u: usize| !stack@.contains(u) by {
                if stack@.contains(u) {
                    let m = choose|m: int| 0 <= m < stack@.len() && stack@[m] == u;
                }
            }
        }
        assert forall|u: usize| reachable(repo, u) implies order.contains(u) by {
            let p = choose|p: Seq<usize>|
                path_ok(repo.commits@, p) && repo.ref_targets@.contains(p[0]) && p.last() == u;
            let k = choose|k: int|
                0 <= k < repo.ref_targets@.len() && repo.ref_targets@[k] == p[0];
            assert(visited@[p[0] as int]);
            lemma_path_visited(repo, visited@, p);
        }
        assert(extraction_order(repo, order, out@));
        // The gathered identities are exactly the reachable authors.
        assert forall|a: (Seq<char>, Seq<char>)|
            idents_view(out@).to_set().contains(a) implies reachable_authors(repo).contains(a) by {
            let k = choose|k: int| 0 <= k < out@.len() && idents_view(out@)[k] == a;
            assert(ident_view(out@[k]) == author_view(repo.commits@[order[k] as int]));
            assert(order.contains(order[k]));
            assert(reachable(repo, order[k]));
        }
        assert forall|a: (Seq<char>, Seq<char>)|
            reachable_authors(repo).contains(a) implies idents_view(out@).to_set().contains(a) by {
            let i = choose|i: usize|
                #[trigger] reachable(repo, i) && a == author_view(repo.commits@[i as int]);
            assert(order.contains(i));
            let k = choose|k: int| 0 <= k < order.len() && order[k] == i;
            assert(idents_view(out@)[k] == a);
            assert(idents_view(out@).contains(a));
        }
        assert(idents_view(out@).to_set() =~= reachable_authors(repo));
    }
    out
}

} // verus!
