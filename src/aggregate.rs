//! Accumulation of decoded AS_PATHs into a map from address to the set of its paths.
use vstd::prelude::*;
use crate::address::Address;
use crate::bottleneck::{PathMap, path_set};
use crate::decode::{DecodeError, as_path_from_bgp_attributes, decode_spec, dedup, dedup_spec};

verus! {

/// Whether `after` is `before` with path `p` added to the set of address `a`.
pub open spec fn path_added(
    before: Map<Address, Vec<Vec<u32>>>,
    after: Map<Address, Vec<Vec<u32>>>,
    a: Address,
    p: Seq<u32>,
) -> bool {
    &&& after.dom() == before.dom().insert(a)
    &&& forall|k: Address| #[trigger]
        before.dom().contains(k) && k != a ==> after[k] == before[k]
    &&& path_set(after[a]) == if before.dom().contains(a) {
        path_set(before[a]).insert(p)
    } else {
        Set::<Seq<u32>>::empty().insert(p)
    }
}

/// Whether two paths hold the same ASNs in the same order.
pub fn same_path(a: &Vec<u32>, b: &Vec<u32>) -> (r: bool)
    ensures
        r == (a@ == b@),
{
    if a.len() != b.len() {
        return false;
    }
    let mut i: usize = 0;
    while i < a.len()
        invariant
            a@.len() == b@.len(),
            i <= a@.len(),
            forall|t: int| 0 <= t < i ==> a@[t] == b@[t],
        decreases a@.len() - i,
    {
        if a[i] != b[i] {
            return false;
        }
        i = i + 1;
    }
    assert(a@ =~= b@);
    true
}

/// Adds `as_path` to the set of paths of `address`, creating the set on first insertion.
pub fn insert_path(mrt_hm: &mut PathMap, address: Address, as_path: Vec<u32>)
    requires
        old(mrt_hm).wf(),
    ensures
        final(mrt_hm).wf(),
        path_added(old(mrt_hm)@, final(mrt_hm)@, address, as_path@),
{
    match mrt_hm.index_of(&address) {
        None => {
            let ghost p = as_path@;
            let mut paths: Vec<Vec<u32>> = Vec::new();
            paths.push(as_path);
            proof {
                assert(paths@[0]@ == p);
                assert(path_set(paths) =~= Set::<Seq<u32>>::empty().insert(p));
            }
            mrt_hm.push_new(address, paths);
            proof {
                assert(mrt_hm@.dom() =~= old(mrt_hm)@.dom().insert(address));
            }
        },
        Some(i) => {
            proof {
                mrt_hm.lemma_entry(i as int);
            }
            let mut paths = mrt_hm.replace_at(i, Vec::new());
            let ghost before = paths;
            let mut j: usize = 0;
            let mut seen = false;
            while j < paths.len()
                invariant
                    j <= paths@.len(),
                    seen ==> path_set(paths).contains(as_path@),
                decreases paths@.len() - j,
            {
                if same_path(&paths[j], &as_path) {
                    seen = true;
                }
                j = j + 1;
            }
            let ghost p = as_path@;
            if !seen {
                paths.push(as_path);
            }
            proof {
                assert(path_set(paths) =~= path_set(before).insert(p)) by {
                    if !seen {
                        assert forall|q: Seq<u32>| #[trigger] path_set(paths).contains(q) implies path_set(
                            before,
                        ).insert(p).contains(q) by {
                            let t = choose|t: int| 0 <= t < paths@.len() && paths@[t]@ == q;
                            if t < before@.len() {
                                assert(path_set(before).contains(q));
                            }
                        }
                        assert forall|q: Seq<u32>| #[trigger] path_set(before).insert(p).contains(q) implies path_set(
                            paths,
                        ).contains(q) by {
                            if q == p {
                                assert(paths@[before@.len() as int]@ == q);
                            } else {
                                let t = choose|t: int| 0 <= t < before@.len() && before@[t]@ == q;
                                assert(paths@[t]@ == q);
                            }
                        }
                    }
                }
            }
            mrt_hm.replace_at(i, paths);
            proof {
                assert(mrt_hm@.dom() =~= old(mrt_hm)@.dom().insert(address));
            }
        },
    }
}

/// Handles one RIB entry: records `prefix_length` as the mask of the peer's address,
/// decodes the entry's AS_PATH, collapses its adjacent repeats and adds it to the
/// paths of that address. A blob that does not decode leaves `mrt_hm` unchanged.
pub fn ingest_rib_entry(
    addresses: &mut Vec<Address>,
    peer_index: usize,
    prefix_length: u8,
    attributes: Vec<u8>,
    mrt_hm: &mut PathMap,
) -> (r: Result<(), DecodeError>)
    requires
        peer_index < old(addresses)@.len(),
        old(mrt_hm).wf(),
    ensures
        final(addresses)@ == old(addresses)@.update(
            peer_index as int,
            Address { ip: old(addresses)@[peer_index as int].ip, mask: Some(prefix_length) },
        ),
        final(mrt_hm).wf(),
        match decode_spec(attributes@) {
            Ok(p) => r is Ok && path_added(
                old(mrt_hm)@,
                final(mrt_hm)@,
                final(addresses)@[peer_index as int],
                dedup_spec(p),
            ),
            Err(e) => r == Err::<(), DecodeError>(e) && final(mrt_hm)@ == old(mrt_hm)@,
        },
{
    let addr = Address { ip: addresses[peer_index].ip, mask: Some(prefix_length) };
    addresses.set(peer_index, addr);
    match as_path_from_bgp_attributes(attributes) {
        Ok(mut as_path) => {
            dedup(&mut as_path);
            insert_path(mrt_hm, addr, as_path);
            Ok(())
        },
        Err(e) => Err(e),
    }
}

} // verus!
