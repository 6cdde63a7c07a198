//! The shared work queue of pending repository URLs.
//!
//! The queue is filled once, before any worker starts, and from then on is
//! only popped. Workers pop concurrently under the caller's lock; each pop
//! removes exactly one pending URL, so however the pops interleave, every
//! queued URL is delivered to exactly one worker and none is delivered
//! twice. A worker that sees the queue empty exits; no work is added later.

use crate::pagination::strings_view;
use vstd::multiset::Multiset;
use vstd::prelude::*;
use vstd::seq_lib::*;

verus! {

pub struct WorkQueue {
    items: Vec<String>,
}

impl WorkQueue {
    /// The pending URLs, oldest first.
    pub closed spec fn view(&self) -> Seq<Seq<char>> {
        strings_view(self.items@)
    }

    /// A queue holding `urls`.
    pub fn new(urls: Vec<String>) -> (q: WorkQueue)
        ensures
            q@ == strings_view(urls@),
    {
        WorkQueue { items: urls }
    }

    /// How many URLs are still pending.
    pub fn len(&self) -> (r: usize)
        ensures
            r == self@.len(),
    {
        self.items.len()
    }

    /// Removes and yields the newest pending URL, or nothing when the
    /// queue is drained. This is the queue's sole mutating operation once
    /// the workers run.
    pub fn pop(&mut self) -> (r: Option<String>)
        ensures
            old(self)@.len() == 0 ==> r is None && final(self)@ == old(self)@,
            old(self)@.len() > 0 ==> (r matches Some(u) && u@ == old(self)@.last() && final(self)@
                == old(self)@.drop_last()),
    {
        let ghost pre = self.items@;
        let r = self.items.pop();
        proof {
            if pre.len() > 0 {
                assert(strings_view(pre.drop_last()) =~= strings_view(pre).drop_last());
            }
        }
        r
    }

    /// Pops until nothing is pending: every queued URL comes out exactly
    /// once — none is lost, none is delivered twice — newest first.
    pub fn drain(&mut self) -> (r: Vec<String>)
        ensures
            final(self)@.len() == 0,
            strings_view(r@) == old(self)@.reverse(),
            strings_view(r@).to_multiset() == old(self)@.to_multiset(),
    {
        broadcast use Seq::lemma_push_map_commute;

        let mut out: Vec<String> = Vec::new();
        proof {
            assert(strings_view(Seq::<String>::empty()).reverse() =~= Seq::<Seq<char>>::empty());
            assert(old(self)@ =~= self@ + strings_view(out@).reverse());
        }
        loop
            invariant
                old(self)@ == self@ + strings_view(out@).reverse(),
            ensures
                self@.len() == 0,
                old(self)@ == self@ + strings_view(out@).reverse(),
            decreases self@.len(),
        {
            let ghost pre = self@;
            match self.pop() {
                Some(u) => {
                    out.push(u);
                    proof {
                        assert(strings_view(out@).reverse() =~= seq![pre.last()] + strings_view(
                            out@.drop_last(),
                        ).reverse());
                        assert(pre.drop_last() + strings_view(out@).reverse() =~= pre
                            + strings_view(out@.drop_last()).reverse());
                    }
                },
                None => {
                    break ;
                },
            }
        }
        proof {
            let sv = strings_view(out@);
            assert(old(self)@.len() == sv.len());
            assert forall|i: int| 0 <= i < sv.len() implies sv[i] == old(self)@.reverse()[i] by {
                assert(old(self)@.reverse()[i] == old(self)@[sv.len() - 1 - i]);
                assert(old(self)@[sv.len() - 1 - i] == sv.reverse()[sv.len() - 1 - i]);
                assert(sv.reverse()[sv.len() - 1 - i] == sv[i]);
            }
            assert(strings_view(out@) =~= old(self)@.reverse());
            old(self)@.lemma_reverse_to_multiset();
        }
        out
    }
}

/// One pop moves exactly one pending URL out of the queue, or none when
/// the queue was already drained: afterwards the URLs pending before are
/// exactly those still pending plus the one delivered. However many
/// workers interleave their pops, the deliveries over a whole run
/// therefore partition the queued URLs: each is delivered exactly once.
pub proof fn lemma_pop_conserves(pre: Seq<Seq<char>>, post: Seq<Seq<char>>, popped: Option<Seq<char>>)
    requires
        pre.len() == 0 ==> popped is None && post == pre,
        pre.len() > 0 ==> (popped matches Some(u) && u == pre.last() && post == pre.drop_last()),
    ensures
        pre.to_multiset() == match popped {
            Some(u) => post.to_multiset().insert(u),
            None => post.to_multiset(),
        },
{
    if pre.len() > 0 {
        post.to_multiset_ensures();
        assert(post.push(pre.last()) =~= pre);
        assert(post.push(pre.last()).to_multiset() =~= post.to_multiset().insert(pre.last()));
    }
}

/// One successful pop: the step from `pre` to `post` that delivers `u`.
pub open spec fn pop_step(pre: Seq<Seq<char>>, post: Seq<Seq<char>>, u: Seq<char>) -> bool {
    pre.len() > 0 && u == pre.last() && post == pre.drop_last()
}

/// Over any run of pops — however many workers interleave them, since each
/// holds the queue for exactly one pop — the URLs delivered and those still
/// pending together are exactly the URLs first queued: a queue of K URLs
/// yields exactly K successful pops over a full run, each URL delivered
/// exactly once, none twice, none lost. `states` are the queue's contents
/// before and after each pop; `delivered` is what the pops handed out, in
/// order.
pub proof fn lemma_pops_partition(states: Seq<Seq<Seq<char>>>, delivered: Seq<Seq<char>>)
    requires
        states.len() == delivered.len() + 1,
        forall|k: int|
            0 <= k < delivered.len() ==> pop_step(
                #[trigger] states[k],
                states[k + 1],
                delivered[k],
            ),
    ensures
        states[0].to_multiset() == states.last().to_multiset().add(delivered.to_multiset()),
    decreases delivered.len(),
{
    if delivered.len() == 0 {
        assert(states[0] == states.last());
        delivered.to_multiset_ensures();
        assert forall|x: Seq<char>| #[trigger] delivered.to_multiset().count(x) == 0 by {
            if delivered.to_multiset().count(x) > 0 {
                assert(delivered.contains(x));
            }
        }
        assert(delivered.to_multiset() =~= Multiset::<Seq<char>>::empty());
        assert(states[0].to_multiset() =~= states.last().to_multiset().add(
            delivered.to_multiset(),
        ));
    } else {
        assert(pop_step(states[0], states[1], delivered[0]));
        lemma_pop_conserves(states[0], states[1], Some(delivered[0]));
        let st = states.skip(1);
        let dt = delivered.skip(1);
        assert forall|k: int| 0 <= k < dt.len() implies pop_step(
            #[trigger] st[k],
            st[k + 1],
            dt[k],
        ) by {
            assert(st[k] == states[k + 1] && st[k + 1] == states[k + 2] && dt[k] == delivered[k
                + 1]);
            assert(pop_step(states[k + 1], states[k + 2], delivered[k + 1]));
        }
        lemma_pops_partition(st, dt);
        assert(st[0] == states[1] && st.last() == states.last());
        delivered.to_multiset_ensures();
        dt.to_multiset_ensures();
        assert(dt.push(delivered[0]).to_multiset() =~= dt.to_multiset().insert(delivered[0]));
        assert(dt.push(delivered[0]).to_multiset() =~= delivered.to_multiset()) by {
            assert(dt.push(delivered[0]).to_multiset() =~= dt.to_multiset().insert(delivered[0]));
            assert(delivered =~= seq![delivered[0]] + dt);
            assert((seq![delivered[0]] + dt).to_multiset() =~= dt.to_multiset().insert(
                delivered[0],
            )) by {
                lemma_first_multiset(delivered[0], dt);
            }
        }
        assert(states.last().to_multiset().add(dt.to_multiset()).insert(delivered[0])
            =~= states.last().to_multiset().add(dt.to_multiset().insert(delivered[0])));
        assert(states[0].to_multiset() =~= states.last().to_multiset().add(
            delivered.to_multiset(),
        ));
    }
}

proof fn lemma_first_multiset(u: Seq<char>, rest: Seq<Seq<char>>)
    ensures
        (seq![u] + rest).to_multiset() == rest.to_multiset().insert(u),
    decreases rest.len(),
{
    let whole = seq![u] + rest;
    whole.to_multiset_ensures();
    rest.to_multiset_ensures();
    if rest.len() == 0 {
        assert(whole =~= seq![u]);
        assert(Seq::<Seq<char>>::empty().push(u) =~= seq![u]);
        Seq::<Seq<char>>::empty().to_multiset_ensures();
        assert(seq![u].to_multiset() =~= Seq::<Seq<char>>::empty().to_multiset().insert(u));
    } else {
        lemma_first_multiset(u, rest.drop_last());
        assert(whole.drop_last() =~= seq![u] + rest.drop_last());
        assert(whole == whole.drop_last().push(rest.last()));
        whole.drop_last().to_multiset_ensures();
        rest.drop_last().to_multiset_ensures();
        assert(whole.to_multiset() =~= whole.drop_last().to_multiset().insert(rest.last()));
        assert(rest =~= rest.drop_last().push(rest.last()));
        assert(rest.drop_last().push(rest.last()).to_multiset() =~= rest.drop_last().to_multiset().insert(rest.last()));
        assert(rest.to_multiset() =~= rest.drop_last().to_multiset().insert(rest.last()));
        assert(whole.drop_last().to_multiset().insert(rest.last()) =~= rest.drop_last().to_multiset().insert(u).insert(rest.last()));
        assert(rest.drop_last().to_multiset().insert(u).insert(rest.last()) =~= rest.drop_last().to_multiset().insert(rest.last()).insert(u));
    }
}

} // verus!
