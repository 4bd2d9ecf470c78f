//! The longest-chain rule: among the local chain and the chains that
//! peers answered with, the longest wins; ties keep the earliest.
use crate::block::Block;
use vstd::prelude::*;

verus! {

/// The chain the rule picks among candidates read left to right: a
/// later candidate displaces the current pick only by being strictly
/// longer.
pub open spec fn best_chain(chains: Seq<Seq<Block>>) -> Seq<Block>
    decreases chains.len(),
{
    if chains.len() == 0 {
        Seq::empty()
    } else if chains.len() == 1 {
        chains[0]
    } else {
        let prev = best_chain(chains.drop_last());
        if chains.last().len() > prev.len() {
            chains.last()
        } else {
            prev
        }
    }
}

/// The candidate list: the local chain first, then each successfully
/// fetched peer chain in order. A failed fetch contributes nothing.
pub open spec fn candidate_chains(local: Seq<Block>, fetched: Seq<Option<Vec<Block>>>) -> Seq<
    Seq<Block>,
>
    decreases fetched.len(),
{
    if fetched.len() == 0 {
        seq![local]
    } else {
        candidate_chains(local, fetched.drop_last()) + (match fetched.last() {
            Some(c) => seq![c@],
            None => Seq::empty(),
        })
    }
}

/// The pick is one of the candidates, no candidate is longer, and every
/// candidate before the pick is strictly shorter.
pub proof fn lemma_best_chain_selects_longest(chains: Seq<Seq<Block>>)
    requires
        chains.len() > 0,
    ensures
        forall|i: int|
            0 <= i < chains.len() ==> (#[trigger] chains[i]).len() <= best_chain(chains).len(),
        exists|i: int|
            0 <= i < chains.len() && best_chain(chains) == chains[i] && (forall|j: int|
                0 <= j < i ==> (#[trigger] chains[j]).len() < best_chain(chains).len()),
    decreases chains.len(),
{
    if chains.len() == 1 {
        assert(best_chain(chains) == chains[0]);
        assert(0 <= 0 < chains.len() && best_chain(chains) == chains[0] && (forall|j: int|
            0 <= j < 0 ==> (#[trigger] chains[j]).len() < best_chain(chains).len()));
    } else {
        let head = chains.drop_last();
        lemma_best_chain_selects_longest(head);
        let prev = best_chain(head);
        assert(forall|i: int| 0 <= i < head.len() ==> chains[i] == #[trigger] head[i]);
        if chains.last().len() > prev.len() {
            let w = chains.len() - 1;
            assert(best_chain(chains) == chains[w]);
            assert forall|j: int| 0 <= j < w implies (#[trigger] chains[j]).len() < best_chain(
                chains,
            ).len() by {
                assert(chains[j] == head[j]);
                assert(head[j].len() <= prev.len());
            }
            assert forall|i: int| 0 <= i < chains.len() implies (#[trigger] chains[i]).len()
                <= best_chain(chains).len() by {
                if i < head.len() {
                    assert(chains[i] == head[i]);
                    assert(head[i].len() <= prev.len());
                }
            }
        } else {
            assert(best_chain(chains) == prev);
            let i0 = choose|i: int|
                0 <= i < head.len() && best_chain(head) == head[i] && (forall|j: int|
                    0 <= j < i ==> (#[trigger] head[j]).len() < best_chain(head).len());
            assert(best_chain(chains) == chains[i0]);
            assert forall|j: int| 0 <= j < i0 implies (#[trigger] chains[j]).len() < best_chain(
                chains,
            ).len() by {
                assert(chains[j] == head[j]);
                assert(head[j].len() < best_chain(head).len());
            }
            assert forall|i: int| 0 <= i < chains.len() implies (#[trigger] chains[i]).len()
                <= best_chain(chains).len() by {
                if i < head.len() {
                    assert(chains[i] == head[i]);
                    assert(head[i].len() <= prev.len());
                }
            }
        }
    }
}

fn clone_chain(v: &Vec<Block>) -> (r: Vec<Block>)
    ensures
        r@ == v@,
{
    let mut r: Vec<Block> = Vec::new();
    let n = v.len();
    let mut i: usize = 0;
    while i < n
        invariant
            i <= n,
            n == v@.len(),
            r@ =~= v@.take(i as int),
        decreases n - i,
    {
        r.push(v[i].clone());
        assert(r@ =~= v@.take(i + 1));
        i = i + 1;
    }
    assert(v@.take(n as int) =~= v@);
    r
}

/// Picks the longest chain among the local chain and the successfully
/// fetched peer chains, preferring the earliest on ties. A failed
/// fetch is skipped and never disturbs the result; with no usable peer
/// answer the local chain stands.
///
/// Known limitation, kept deliberately: a fetched chain's internal
/// hash linkage is not re-validated here; only lengths are compared.
/// The resolver is read-only and never replaces the stored chain.
pub fn resolve_longest_chain(local: &Vec<Block>, fetched: &Vec<Option<Vec<Block>>>) -> (r: Vec<
    Block,
>)
    ensures
        r@ == best_chain(candidate_chains(local@, fetched@)),
{
    let mut best_idx: Option<usize> = None;
    let mut best_len: usize = local.len();
    let n = fetched.len();
    let mut i: usize = 0;
    proof {
        assert(fetched@.take(0) =~= Seq::<Option<Vec<Block>>>::empty());
    }
    while i < n
        invariant
            i <= n,
            n == fetched@.len(),
            match best_idx {
                None => best_chain(candidate_chains(local@, fetched@.take(i as int))) == local@
                    && best_len == local@.len(),
                Some(k) => k < i && fetched@[k as int] is Some && best_chain(
                    candidate_chains(local@, fetched@.take(i as int)),
                ) == fetched@[k as int]->Some_0@ && best_len == fetched@[k as int]->Some_0@.len(),
            },
        decreases n - i,
    {
        proof {
            let pre = fetched@.take(i as int);
            let post = fetched@.take(i + 1);
            assert(post.drop_last() =~= pre);
            assert(post.last() == fetched@[i as int]);
            match fetched@[i as int] {
                Some(c) => {
                    assert(candidate_chains(local@, post) == candidate_chains(local@, pre) + seq![
                        c@,
                    ]);
                    let cs = candidate_chains(local@, pre) + seq![c@];
                    assert(cs.drop_last() =~= candidate_chains(local@, pre));
                    assert(cs.last() == c@);
                },
                None => {
                    assert(candidate_chains(local@, post) =~= candidate_chains(local@, pre));
                },
            }
        }
        match &fetched[i] {
            Some(c) => {
                if c.len() > best_len {
                    best_len = c.len();
                    best_idx = Some(i);
                }
            },
            None => {},
        }
        i = i + 1;
    }
    proof {
        assert(fetched@.take(n as int) =~= fetched@);
    }
    match best_idx {
        None => clone_chain(local),
        Some(k) => match &fetched[k] {
            Some(c) => clone_chain(c),
            None => {
                proof {
                    assert(false);
                }
                clone_chain(local)
            },
        },
    }
}

} // verus!
