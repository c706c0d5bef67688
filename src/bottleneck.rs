//! The longest common leading run of the AS_PATHs seen for each address, and the
//! bottleneck ASN that ends it.
use vstd::prelude::*;
use crate::address::{Address, AddressMap};

verus! {

/// The AS_PATHs observed for each address.
pub type PathMap = AddressMap<Vec<Vec<u32>>>;

/// The set of AS_PATHs that a list of paths holds.
pub open spec fn path_set(v: Vec<Vec<u32>>) -> Set<Seq<u32>> {
    Set::new(|p: Seq<u32>| exists|j: int| 0 <= j < v@.len() && v@[j]@ == p)
}

/// Whether `p` starts with the first `n` elements of `r`.
pub open spec fn agrees_upto(p: Seq<u32>, r: Seq<u32>, n: int) -> bool {
    n <= p.len() && n <= r.len() && forall|t: int| 0 <= t < n ==> p[t] == r[t]
}

/// Whether every path of `paths` starts with `r`.
pub open spec fn is_common_run(r: Seq<u32>, paths: Set<Seq<u32>>) -> bool {
    forall|p: Seq<u32>| #[trigger] paths.contains(p) ==> agrees_upto(p, r, r.len() as int)
}

/// Whether `r` starts every path of `paths` and no longer sequence does.
pub open spec fn is_longest_common_run(r: Seq<u32>, paths: Set<Seq<u32>>) -> bool {
    is_common_run(r, paths) && forall|x: u32| !is_common_run(#[trigger] r.push(x), paths)
}

/// The longest common leading run of a set of paths.
pub open spec fn common_run(paths: Set<Seq<u32>>) -> Seq<u32> {
    choose|r: Seq<u32>| is_longest_common_run(r, paths)
}

/// The bottleneck ASN of a set of paths: the last element of their longest common leading run.
pub open spec fn bottleneck(paths: Set<Seq<u32>>) -> u32 {
    common_run(paths).last()
}

/// Whether `paths` is non-empty and its paths are non-empty and share their first ASN.
pub open spec fn first_hops_agree(paths: Set<Seq<u32>>) -> bool {
    &&& exists|p: Seq<u32>| paths.contains(p)
    &&& forall|p: Seq<u32>| #[trigger] paths.contains(p) ==> p.len() >= 1
    &&& forall|p: Seq<u32>, q: Seq<u32>|
        #[trigger] paths.contains(p) && #[trigger] paths.contains(q) ==> p[0] == q[0]
}

/// Whether every address of the map has paths that agree on their first hop.
pub open spec fn is_consistent(m: Map<Address, Vec<Vec<u32>>>) -> bool {
    forall|a: Address| #[trigger] m.dom().contains(a) ==> first_hops_agree(path_set(m[a]))
}

/// A non-empty set of paths has at most one longest common leading run.
pub proof fn lemma_longest_common_run_unique(r1: Seq<u32>, r2: Seq<u32>, paths: Set<Seq<u32>>)
    requires
        exists|p: Seq<u32>| paths.contains(p),
        is_longest_common_run(r1, paths),
        is_longest_common_run(r2, paths),
    ensures
        r1 == r2,
{
    let p = choose|p: Seq<u32>| paths.contains(p);
    assert(agrees_upto(p, r1, r1.len() as int));
    assert(agrees_upto(p, r2, r2.len() as int));
    if r1.len() < r2.len() {
        let x = r2[r1.len() as int];
        assert forall|q: Seq<u32>| #[trigger] paths.contains(q) implies agrees_upto(
            q,
            r1.push(x),
            r1.len() + 1 as int,
        ) by {
            assert(agrees_upto(q, r2, r2.len() as int));
        }
        assert(is_common_run(r1.push(x), paths));
    } else if r2.len() < r1.len() {
        let x = r1[r2.len() as int];
        assert forall|q: Seq<u32>| #[trigger] paths.contains(q) implies agrees_upto(
            q,
            r2.push(x),
            r2.len() + 1 as int,
        ) by {
            assert(agrees_upto(q, r1, r1.len() as int));
        }
        assert(is_common_run(r2.push(x), paths));
    } else {
        assert(r1 =~= r2);
    }
}

/// A longest common leading run is the common run.
pub proof fn lemma_is_common_run(r: Seq<u32>, paths: Set<Seq<u32>>)
    requires
        exists|p: Seq<u32>| paths.contains(p),
        is_longest_common_run(r, paths),
    ensures
        common_run(paths) == r,
{
    lemma_longest_common_run_unique(common_run(paths), r, paths);
}

/// A set that holds one path has that whole path as its common run, and the path's
/// last ASN as its bottleneck.
pub proof fn lemma_single_path(p: Seq<u32>)
    requires
        p.len() >= 1,
    ensures
        common_run(set![p]) == p,
        bottleneck(set![p]) == p.last(),
{
    let paths = set![p];
    assert(paths.contains(p));
    assert forall|q: Seq<u32>| #[trigger] paths.contains(q) implies agrees_upto(q, p, p.len() as int) by {
        assert(q == p);
    }
    assert forall|x: u32| !is_common_run(#[trigger] p.push(x), paths) by {
        assert(!agrees_upto(p, p.push(x), p.len() + 1 as int));
    }
    lemma_is_common_run(p, paths);
}

/// Paths that start with the same ASN `x` and share nothing more (one of them ends
/// after `x`, or two of them differ at their second ASN) have `x` as their bottleneck.
pub proof fn lemma_first_hop_only(paths: Set<Seq<u32>>, x: u32, p: Seq<u32>, q: Seq<u32>)
    requires
        forall|s: Seq<u32>| #[trigger] paths.contains(s) ==> s.len() >= 1 && s[0] == x,
        paths.contains(p),
        paths.contains(q),
        p.len() == 1 || (q.len() >= 2 && p[1] != q[1]),
    ensures
        common_run(paths) == seq![x],
        bottleneck(paths) == x,
{
    let r = seq![x];
    assert forall|s: Seq<u32>| #[trigger] paths.contains(s) implies agrees_upto(s, r, 1) by {}
    assert forall|y: u32| !is_common_run(#[trigger] r.push(y), paths) by {
        if is_common_run(r.push(y), paths) {
            assert(agrees_upto(p, r.push(y), 2));
            assert(agrees_upto(q, r.push(y), 2));
        }
    }
    lemma_is_common_run(r, paths);
}

/// The longest common leading run of a non-empty list of paths that agree on their first hop.
pub fn common_run_of(paths: &Vec<Vec<u32>>) -> (r: Vec<u32>)
    requires
        first_hops_agree(path_set(*paths)),
    ensures
        r@ == common_run(path_set(*paths)),
        r@.len() >= 1,
{
    let ghost set = path_set(*paths);
    let ghost witness = choose|p: Seq<u32>| set.contains(p);
    assert(paths@.len() > 0) by {
        assert(set.contains(witness));
    }
    assert forall|j: int| 0 <= j < paths@.len() implies #[trigger] paths@[j]@.len() >= 1
        && paths@[j]@[0] == paths@[0]@[0] by {
        assert(set.contains(paths@[j]@));
        assert(set.contains(paths@[0]@));
    }
    // Seed the run with a shortest path.
    let mut k: usize = 0;
    let mut j: usize = 1;
    while j < paths.len()
        invariant
            1 <= j <= paths@.len(),
            k < paths@.len(),
            forall|t: int| 0 <= t < j ==> paths@[t]@.len() >= paths@[k as int]@.len(),
        decreases paths@.len() - j,
    {
        if paths[j].len() < paths[k].len() {
            k = j;
        }
        j = j + 1;
    }
    let shortest = &paths[k];
    let mut run: Vec<u32> = Vec::new();
    let mut i: usize = 0;
    while i < shortest.len()
        invariant
            i <= shortest@.len(),
            run@ == shortest@.take(i as int),
        decreases shortest@.len() - i,
    {
        run.push(shortest[i]);
        i = i + 1;
        assert(run@ =~= shortest@.take(i as int));
    }
    assert(run@ =~= shortest@);
    // Cut the run at the first index where another path departs from it.
    let mut j: usize = 0;
    while j < paths.len()
        invariant
            shortest == &paths@[k as int],
            k < paths@.len(),
            j <= paths@.len(),
            forall|t: int| 0 <= t < paths@.len() ==> paths@[t]@.len() >= shortest@.len(),
            forall|t: int| 0 <= t < paths@.len() ==> #[trigger] paths@[t]@.len() >= 1
                && paths@[t]@[0] == paths@[0]@[0],
            1 <= run@.len() <= shortest@.len(),
            agrees_upto(shortest@, run@, run@.len() as int),
            forall|t: int| 0 <= t < j ==> agrees_upto(#[trigger] paths@[t]@, run@, run@.len() as int),
            run@.len() == shortest@.len() || exists|t: int|
                0 <= t < j && #[trigger] paths@[t]@[run@.len() as int] != shortest@[run@.len() as int],
        decreases paths@.len() - j,
    {
        let p = &paths[j];
        let mut i: usize = 1;
        while i < run.len()
            invariant
                shortest == &paths@[k as int],
                p == &paths@[j as int],
                k < paths@.len(),
                j < paths@.len(),
                forall|t: int| 0 <= t < paths@.len() ==> paths@[t]@.len() >= shortest@.len(),
                forall|t: int| 0 <= t < paths@.len() ==> #[trigger] paths@[t]@.len() >= 1
                    && paths@[t]@[0] == paths@[0]@[0],
                1 <= i <= run@.len(),
                1 <= run@.len() <= shortest@.len(),
                agrees_upto(shortest@, run@, run@.len() as int),
                agrees_upto(p@, run@, i as int),
                forall|t: int| 0 <= t < j ==> agrees_upto(#[trigger] paths@[t]@, run@, run@.len() as int),
                run@.len() == shortest@.len() || exists|t: int|
                    0 <= t <= j && #[trigger] paths@[t]@[run@.len() as int] != shortest@[run@.len() as int],
            decreases run@.len() - i,
        {
            if p[i] != run[i] {
                run.truncate(i);
                assert(paths@[j as int]@[run@.len() as int] != shortest@[run@.len() as int]);
            } else {
                i = i + 1;
            }
        }
        j = j + 1;
    }
    proof {
        assert forall|q: Seq<u32>| #[trigger] set.contains(q) implies agrees_upto(
            q,
            run@,
            run@.len() as int,
        ) by {
            let t = choose|t: int| 0 <= t < paths@.len() && paths@[t]@ == q;
            assert(agrees_upto(paths@[t]@, run@, run@.len() as int));
        }
        assert forall|x: u32| !is_common_run(#[trigger] run@.push(x), set) by {
            assert(set.contains(shortest@));
            if run@.len() < shortest@.len() {
                let n = run@.len() as int;
                let t = choose|t: int|
                    0 <= t < paths@.len() && #[trigger] paths@[t]@[n] != shortest@[n];
                assert(set.contains(paths@[t]@));
                if is_common_run(run@.push(x), set) {
                    assert(agrees_upto(shortest@, run@.push(x), n + 1));
                    assert(agrees_upto(paths@[t]@, run@.push(x), n + 1));
                }
            }
        }
        lemma_is_common_run(run@, set);
    }
    run
}

/// Whether each address of `mrt_hm` has a non-empty list of non-empty paths that
/// share their first ASN.
pub fn first_hops_consistent(mrt_hm: &PathMap) -> (r: bool)
    requires
        mrt_hm.wf(),
    ensures
        r == is_consistent(mrt_hm@),
{
    let mut i: usize = 0;
    while i < mrt_hm.entries.len()
        invariant
            mrt_hm.wf(),
            i <= mrt_hm.entries@.len(),
            forall|t: int| 0 <= t < i ==> first_hops_agree(path_set(#[trigger] mrt_hm.entries@[t].1)),
        decreases mrt_hm.entries@.len() - i,
    {
        let paths = &mrt_hm.entries[i].1;
        let ghost set = path_set(*paths);
        if paths.len() == 0 {
            proof {
                mrt_hm.lemma_entry(i as int);
                if first_hops_agree(set) {
                    let w = choose|p: Seq<u32>| set.contains(p);
                    assert(set.contains(w));
                }
            }
            return false;
        }
        let mut j: usize = 0;
        while j < paths.len()
            invariant
                mrt_hm.wf(),
                i < mrt_hm.entries@.len(),
                paths == &mrt_hm.entries@[i as int].1,
                set == path_set(*paths),
                paths@.len() > 0,
                j <= paths@.len(),
                forall|t: int| 0 <= t < j ==> #[trigger] paths@[t]@.len() >= 1
                    && paths@[t]@[0] == paths@[0]@[0],
            decreases paths@.len() - j,
        {
            if paths[j].len() == 0 || paths[0].len() == 0 || paths[j][0] != paths[0][0] {
                proof {
                    mrt_hm.lemma_entry(i as int);
                    assert(set.contains(paths@[j as int]@));
                    assert(set.contains(paths@[0]@));
                }
                return false;
            }
            j = j + 1;
        }
        proof {
            assert(set.contains(paths@[0]@));
            assert forall|p: Seq<u32>, q: Seq<u32>|
                #[trigger] set.contains(p) && #[trigger] set.contains(q) implies p[0] == q[0] by {
                let a = choose|t: int| 0 <= t < paths@.len() && paths@[t]@ == p;
                let b = choose|t: int| 0 <= t < paths@.len() && paths@[t]@ == q;
                assert(paths@[a]@.len() >= 1);
                assert(paths@[b]@.len() >= 1);
            }
            assert forall|p: Seq<u32>| #[trigger] set.contains(p) implies p.len() >= 1 by {
                let a = choose|t: int| 0 <= t < paths@.len() && paths@[t]@ == p;
                assert(paths@[a]@.len() >= 1);
            }
        }
        i = i + 1;
    }
    proof {
        assert forall|a: Address| #[trigger] mrt_hm@.dom().contains(a) implies first_hops_agree(
            path_set(mrt_hm@[a]),
        ) by {
            mrt_hm.lemma_dom(a);
            let t = choose|t: int| 0 <= t < mrt_hm.entries@.len() && mrt_hm.entries@[t].0 == a;
            mrt_hm.lemma_entry(t);
        }
    }
    true
}

/// Computes the longest common leading run of the paths of each address of `mrt_hm`
/// and stores it in `prefix_to_common_suffix` under each address that this map does
/// not hold yet; entries it holds already are kept.
pub fn find_common_suffix(mrt_hm: &PathMap, prefix_to_common_suffix: &mut AddressMap<Vec<u32>>)
    requires
        mrt_hm.wf(),
        old(prefix_to_common_suffix).wf(),
        is_consistent(mrt_hm@),
    ensures
        final(prefix_to_common_suffix).wf(),
        final(prefix_to_common_suffix)@.dom() == old(prefix_to_common_suffix)@.dom().union(
            mrt_hm@.dom(),
        ),
        forall|a: Address| #[trigger]
            old(prefix_to_common_suffix)@.dom().contains(a) ==> final(prefix_to_common_suffix)@[a]
                == old(prefix_to_common_suffix)@[a],
        forall|a: Address| #[trigger]
            mrt_hm@.dom().contains(a) && !old(prefix_to_common_suffix)@.dom().contains(a) ==> {
                &&& final(prefix_to_common_suffix)@[a]@ == common_run(path_set(mrt_hm@[a]))
                &&& final(prefix_to_common_suffix)@[a]@.len() >= 1
            },
{
    let ghost start = prefix_to_common_suffix@;
    let mut i: usize = 0;
    while i < mrt_hm.entries.len()
        invariant
            mrt_hm.wf(),
            is_consistent(mrt_hm@),
            start == old(prefix_to_common_suffix)@,
            prefix_to_common_suffix.wf(),
            i <= mrt_hm.entries@.len(),
            forall|a: Address| #[trigger]
                prefix_to_common_suffix@.dom().contains(a) <==> (start.dom().contains(a) || exists|t: int|
                    0 <= t < i && mrt_hm.entries@[t].0 == a),
            forall|a: Address| #[trigger]
                start.dom().contains(a) ==> prefix_to_common_suffix@[a] == start[a],
            forall|a: Address| #[trigger]
                prefix_to_common_suffix@.dom().contains(a) && !start.dom().contains(a) ==> {
                    &&& mrt_hm@.dom().contains(a)
                    &&& prefix_to_common_suffix@[a]@ == common_run(path_set(mrt_hm@[a]))
                    &&& prefix_to_common_suffix@[a]@.len() >= 1
                },
        decreases mrt_hm.entries@.len() - i,
    {
        let prefix = mrt_hm.entries[i].0;
        proof {
            mrt_hm.lemma_entry(i as int);
        }
        if prefix_to_common_suffix.index_of(&prefix).is_none() {
            let run = common_run_of(&mrt_hm.entries[i].1);
            prefix_to_common_suffix.push_new(prefix, run);
        }
        i = i + 1;
    }
    proof {
        assert forall|a: Address| #[trigger]
            prefix_to_common_suffix@.dom().contains(a) <==> start.dom().union(
                mrt_hm@.dom(),
            ).contains(a) by {
            mrt_hm.lemma_dom(a);
        }
        assert(prefix_to_common_suffix@.dom() =~= start.dom().union(mrt_hm@.dom()));
        assert forall|a: Address| #[trigger]
            mrt_hm@.dom().contains(a) && !start.dom().contains(a) implies prefix_to_common_suffix@[a]@
            == common_run(path_set(mrt_hm@[a])) && prefix_to_common_suffix@[a]@.len() >= 1 by {
            assert(prefix_to_common_suffix@.dom().contains(a));
        }
    }
}

/// Whether `r` maps each address of `m`, and no other, to the bottleneck ASN of its paths.
pub open spec fn is_bottleneck_map(m: Map<Address, Vec<Vec<u32>>>, r: Map<Address, u32>) -> bool {
    &&& r.dom() == m.dom()
    &&& forall|a: Address| #[trigger] r.dom().contains(a) ==> r[a] == bottleneck(path_set(m[a]))
}

/// The analysis is a function of the map's contents: two results for the same map agree.
pub proof fn lemma_bottleneck_map_unique(
    m: Map<Address, Vec<Vec<u32>>>,
    r1: Map<Address, u32>,
    r2: Map<Address, u32>,
)
    requires
        is_bottleneck_map(m, r1),
        is_bottleneck_map(m, r2),
    ensures
        r1 == r2,
{
    assert(r1 =~= r2);
}

/// Two maps of addresses to paths that hold the same set of paths for each address
/// have the same bottleneck for each address.
pub proof fn lemma_bottleneck_map_by_sets(
    m1: Map<Address, Vec<Vec<u32>>>,
    m2: Map<Address, Vec<Vec<u32>>>,
    r1: Map<Address, u32>,
    r2: Map<Address, u32>,
)
    requires
        m1.dom() == m2.dom(),
        forall|a: Address| #[trigger] m1.dom().contains(a) ==> path_set(m1[a]) == path_set(m2[a]),
        is_bottleneck_map(m1, r1),
        is_bottleneck_map(m2, r2),
    ensures
        r1 == r2,
{
    assert(r1 =~= r2);
}

/// The bottleneck ASN of each address of `mrt_hm`: the last ASN of the longest common
/// leading run of its paths.
pub fn find_as_bottleneck(mrt_hm: &PathMap) -> (r: AddressMap<u32>)
    requires
        mrt_hm.wf(),
        is_consistent(mrt_hm@),
    ensures
        r.wf(),
        is_bottleneck_map(mrt_hm@, r@),
{
    let mut prefix_to_common_suffix: AddressMap<Vec<u32>> = AddressMap::new();
    find_common_suffix(mrt_hm, &mut prefix_to_common_suffix);
    let runs = &prefix_to_common_suffix;
    assert(runs@.dom() =~= mrt_hm@.dom());
    let mut as_bottleneck: AddressMap<u32> = AddressMap::new();
    let mut i: usize = 0;
    while i < runs.entries.len()
        invariant
            runs.wf(),
            runs@.dom() == mrt_hm@.dom(),
            forall|a: Address| #[trigger]
                mrt_hm@.dom().contains(a) ==> runs@[a]@ == common_run(path_set(mrt_hm@[a]))
                    && runs@[a]@.len() >= 1,
            as_bottleneck.wf(),
            i <= runs.entries@.len(),
            forall|a: Address| #[trigger]
                as_bottleneck@.dom().contains(a) <==> exists|t: int|
                    0 <= t < i && runs.entries@[t].0 == a,
            forall|a: Address| #[trigger]
                as_bottleneck@.dom().contains(a) ==> as_bottleneck@[a] == bottleneck(
                    path_set(mrt_hm@[a]),
                ),
        decreases runs.entries@.len() - i,
    {
        let addr = runs.entries[i].0;
        let as_path = &runs.entries[i].1;
        proof {
            runs.lemma_entry(i as int);
            if as_bottleneck@.dom().contains(addr) {
                let t = choose|t: int| 0 <= t < i && runs.entries@[t].0 == addr;
                runs.lemma_distinct_keys(t, i as int);
            }
        }
        let asn = as_path[as_path.len() - 1];
        as_bottleneck.push_new(addr, asn);
        proof {
            assert forall|a: Address| #[trigger]
                as_bottleneck@.dom().contains(a) implies mrt_hm@.dom().contains(a) by {
                if a != addr {
                    let t = choose|t: int| 0 <= t < i && runs.entries@[t].0 == a;
                    runs.lemma_entry(t);
                }
            }
        }
        i = i + 1;
    }
    proof {
        assert forall|a: Address| #[trigger]
            as_bottleneck@.dom().contains(a) <==> mrt_hm@.dom().contains(a) by {
            runs.lemma_dom(a);
        }
        assert(as_bottleneck@.dom() =~= mrt_hm@.dom());
    }
    as_bottleneck
}

} // verus!
