//! Fresh hashes for new nodes, drawn from random numbers that the host
//! supplies.

use std::collections::HashMap;
use vstd::prelude::*;

verus! {

broadcast use vstd::std_specs::hash::group_hash_axioms;

/// How many draws in a row may collide before issuing gives up.
pub const ISSUE_BUDGET: usize = 1024;

/// One more than the largest hash: hashes are three octets wide.
pub const HASH_LIMIT: u32 = 0x100_0000;

/// The hash that a random draw proposes: its low three octets.
pub open spec fn hash_of(draw: u32) -> u32 {
    draw % 0x100_0000
}

/// The hash that a random draw proposes: its low three octets.
pub fn rand_utf8_hash(draw: u32) -> (h: u32)
    ensures
        h == hash_of(draw),
        h < HASH_LIMIT,
{
    draw % 0x100_0000
}

/// The three octets of a hash, the lowest first.
pub fn hash_octets(hash: u32) -> (r: [u8; 3])
    requires
        hash < HASH_LIMIT,
    ensures
        r[0] as int + 256 * (r[1] as int) + 65536 * (r[2] as int) == hash,
{
    let a: u8 = (hash % 256) as u8;
    let b: u8 = ((hash / 256) % 256) as u8;
    let c: u8 = ((hash / 65536) % 256) as u8;
    [a, b, c]
}

/// Why no fresh hash was issued.
#[derive(Debug, Clone, Copy, PartialEq, Eq, Structural)]
pub enum IssueError {
    /// As many draws in a row as the budget allows all proposed a hash that
    /// is taken.
    Collisions,
    /// The draws ran out before a free hash was found.
    OutOfDraws,
}

/// How often `h` occurs in `ids`.
pub open spec fn occ(ids: Seq<u32>, h: u32) -> nat
    decreases ids.len(),
{
    if ids.len() == 0 {
        0
    } else {
        occ(ids.drop_last(), h) + if ids.last() == h {
            1nat
        } else {
            0nat
        }
    }
}

/// The hashes of `ids` differ from one another, and none of them is in
/// `taken`.
pub open spec fn all_fresh(ids: Seq<u32>, taken: Set<u32>) -> bool {
    &&& forall|i: int, j: int| 0 <= i < j < ids.len() ==> ids[i] != ids[j]
    &&& forall|i: int| 0 <= i < ids.len() ==> !taken.contains(#[trigger] ids[i])
}

/// A hash occurs in `ids` as often as it stands at one of its places.
pub proof fn lemma_occ(ids: Seq<u32>, h: u32)
    ensures
        occ(ids, h) > 0 <==> exists|i: int| 0 <= i < ids.len() && ids[i] == h,
        (forall|i: int, j: int| 0 <= i < j < ids.len() ==> ids[i] != ids[j]) ==> occ(ids, h) <= 1,
    decreases ids.len(),
{
    if ids.len() > 0 {
        let d = ids.drop_last();
        lemma_occ(d, h);
        if occ(d, h) > 0 {
            let i = choose|i: int| 0 <= i < d.len() && d[i] == h;
            assert(ids[i] == h);
        }
        if ids.last() == h {
            assert(ids[ids.len() - 1] == h);
        }
        if exists|i: int| 0 <= i < ids.len() && ids[i] == h {
            let i = choose|i: int| 0 <= i < ids.len() && ids[i] == h;
            if i < d.len() {
                assert(d[i] == h);
            }
        }
        if forall|i: int, j: int| 0 <= i < j < ids.len() ==> ids[i] != ids[j] {
            assert forall|i: int, j: int| 0 <= i < j < d.len() implies d[i] != d[j] by {
                assert(ids[i] != ids[j]);
            }
            if ids.last() == h && occ(d, h) > 0 {
                let i = choose|i: int| 0 <= i < d.len() && d[i] == h;
                assert(ids[i] != ids[ids.len() - 1]);
            }
        }
    }
}

/// The place of the first of the draws from `from` on, `budget` of them at
/// most, that proposes a hash outside `taken`; or why there is none.
pub open spec fn first_free(taken: Set<u32>, draws: Seq<u32>, from: int, budget: nat) -> Result<int, IssueError>
    decreases budget,
{
    if budget == 0 {
        Err(IssueError::Collisions)
    } else if from < 0 || from >= draws.len() {
        Err(IssueError::OutOfDraws)
    } else if !taken.contains(hash_of(draws[from])) {
        Ok(from)
    } else {
        first_free(taken, draws, from + 1, (budget - 1) as nat)
    }
}

/// The `n` hashes that are issued from the draws, one after another, each
/// outside `taken` and apart from those issued before it.
pub open spec fn issue_seq(taken: Set<u32>, draws: Seq<u32>, from: int, n: nat) -> Result<Seq<u32>, IssueError>
    decreases n,
{
    if n == 0 {
        Ok(Seq::empty())
    } else {
        match first_free(taken, draws, from, ISSUE_BUDGET as nat) {
            Err(e) => Err(e),
            Ok(j) => match issue_seq(taken.insert(hash_of(draws[j])), draws, j + 1, (n - 1) as nat) {
                Err(e) => Err(e),
                Ok(rest) => Ok(seq![hash_of(draws[j])] + rest),
            },
        }
    }
}

/// Where `first_free` finds a place, it lies among the draws from `from` on.
pub proof fn lemma_first_free(taken: Set<u32>, draws: Seq<u32>, from: int, budget: nat)
    requires
        0 <= from,
    ensures
        first_free(taken, draws, from, budget) matches Ok(j) ==> from <= j < draws.len() && !taken.contains(
            hash_of(draws[j]),
        ),
    decreases budget,
{
    if budget > 0 && from < draws.len() && taken.contains(hash_of(draws[from])) {
        lemma_first_free(taken, draws, from + 1, (budget - 1) as nat);
    }
}

/// What is issued is fresh: `n` hashes that differ from one another, none
/// of them taken.
pub proof fn lemma_issue_fresh(taken: Set<u32>, draws: Seq<u32>, from: int, n: nat)
    requires
        0 <= from,
    ensures
        issue_seq(taken, draws, from, n) matches Ok(ids) ==> ids.len() == n && all_fresh(ids, taken),
    decreases n,
{
    if n > 0 {
        lemma_first_free(taken, draws, from, ISSUE_BUDGET as nat);
        if let Ok(j) = first_free(taken, draws, from, ISSUE_BUDGET as nat) {
            let h = hash_of(draws[j]);
            lemma_issue_fresh(taken.insert(h), draws, j + 1, (n - 1) as nat);
            if let Ok(rest) = issue_seq(taken.insert(h), draws, j + 1, (n - 1) as nat) {
                let ids = seq![h] + rest;
                assert forall|a: int, b: int| 0 <= a < b < ids.len() implies ids[a] != ids[b] by {
                    assert(ids[b] == rest[b - 1]);
                    if a == 0 {
                        assert(taken.insert(h).contains(h));
                    } else {
                        assert(ids[a] == rest[a - 1]);
                    }
                }
                assert forall|a: int| 0 <= a < ids.len() implies !taken.contains(#[trigger] ids[a]) by {
                    if a > 0 {
                        assert(ids[a] == rest[a - 1]);
                        assert(!taken.insert(h).contains(rest[a - 1]));
                    }
                }
            }
        }
    }
}

/// Whether `h` is one of `ids`.
pub(crate) fn is_among(ids: &Vec<u32>, h: u32) -> (r: bool)
    ensures
        r == ids@.contains(h),
{
    let mut i: usize = 0;
    while i < ids.len()
        invariant
            i <= ids@.len(),
            forall|j: int| 0 <= j < i ==> ids@[j] != h,
        decreases ids@.len() - i,
    {
        if ids[i] == h {
            return true;
        }
        i += 1;
    }
    false
}

/// Issues `n` fresh hashes from the draws: each is the first proposal, of
/// `ISSUE_BUDGET` draws at most, that is neither in the index nor issued
/// before it in this call.
pub fn issue_hashes(locations: &HashMap<u32, Vec<usize>>, draws: &Vec<u32>, n: usize) -> (r: Result<
    Vec<u32>,
    IssueError,
>)
    ensures
        match r {
            Ok(ids) => issue_seq(locations@.dom(), draws@, 0, n as nat) == Ok::<Seq<u32>, IssueError>(ids@),
            Err(e) => issue_seq(locations@.dom(), draws@, 0, n as nat) == Err::<Seq<u32>, IssueError>(e),
        },
        r matches Ok(ids) ==> ids@.len() == n && all_fresh(ids@, locations@.dom()),
{
    let mut ids: Vec<u32> = Vec::new();
    let mut from: usize = 0;
    let ghost base = locations@.dom();
    let ghost goal = issue_seq(base, draws@, 0, n as nat);
    proof {
        lemma_issue_fresh(base, draws@, 0, n as nat);
        assert(base.union(ids@.to_set()) =~= base);
        if let Ok(rest) = goal {
            assert(ids@ + rest =~= rest);
        }
    }
    while ids.len() < n
        invariant
            ids@.len() <= n,
            from <= draws@.len(),
            base == locations@.dom(),
            goal == issue_seq(base, draws@, 0, n as nat),
            goal == match issue_seq(
                base.union(ids@.to_set()),
                draws@,
                from as int,
                (n - ids@.len()) as nat,
            ) {
                Ok(rest) => Ok::<Seq<u32>, IssueError>(ids@ + rest),
                Err(e) => Err::<Seq<u32>, IssueError>(e),
            },
        decreases n - ids@.len(),
    {
        let ghost taken = base.union(ids@.to_set());
        let start: usize = from;
        let mut budget: usize = ISSUE_BUDGET;
        let mut found: bool = false;
        let mut h: u32 = 0;
        while budget > 0 && from < draws.len() && !found
            invariant
                start <= from <= draws@.len(),
                base == locations@.dom(),
                taken == base.union(ids@.to_set()),
                budget <= ISSUE_BUDGET,
                !found ==> first_free(taken, draws@, start as int, ISSUE_BUDGET as nat) == first_free(
                    taken,
                    draws@,
                    from as int,
                    budget as nat,
                ),
                found ==> from >= 1 && first_free(taken, draws@, start as int, ISSUE_BUDGET as nat) == Ok::<
                    int,
                    IssueError,
                >(from - 1) && h == hash_of(draws@[from - 1]),
            decreases draws@.len() - from + if found { 0int } else { 1int },
        {
            let cand: u32 = rand_utf8_hash(draws[from]);
            let in_ids: bool = is_among(&ids, cand);
            let in_index: bool = locations.contains_key(&cand);
            proof {
                assert(ids@.to_set().contains(cand) == ids@.contains(cand));
                assert(taken.contains(cand) == (in_index || in_ids));
            }
            from += 1;
            if !in_ids && !in_index {
                found = true;
                h = cand;
            } else {
                budget -= 1;
            }
        }
        if !found {
            proof {
                assert(first_free(taken, draws@, start as int, ISSUE_BUDGET as nat) is Err);
            }
            if budget == 0 {
                return Err(IssueError::Collisions);
            } else {
                return Err(IssueError::OutOfDraws);
            }
        }
        proof {
            let rest_n = (n - ids@.len() - 1) as nat;
            let after = ids@.push(h);
            assert(taken.insert(h) =~= base.union(after.to_set())) by {
                assert forall|x: u32| taken.insert(h).contains(x) == base.union(after.to_set()).contains(x) by {
                    if after.contains(x) {
                        let i = choose|i: int| 0 <= i < after.len() && after[i] == x;
                        if i < ids@.len() {
                            assert(ids@[i] == x);
                            assert(ids@.contains(x));
                        }
                    }
                    if ids@.contains(x) {
                        let i = choose|i: int| 0 <= i < ids@.len() && ids@[i] == x;
                        assert(after[i] == x);
                    }
                    if x == h {
                        assert(after[after.len() - 1] == x);
                    }
                }
            }
            match issue_seq(taken.insert(h), draws@, from as int, rest_n) {
                Ok(rest) => {
                    assert(ids@ + (seq![h] + rest) =~= after + rest);
                },
                Err(e) => {},
            }
        }
        ids.push(h);
    }
    proof {
        assert(ids@ + Seq::<u32>::empty() =~= ids@);
    }
    Ok(ids)
}

} // verus!
