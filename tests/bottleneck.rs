use std::collections::HashMap;

use as_bottleneck::address::{Address, AddressMap, IpAddress};
use as_bottleneck::aggregate::insert_path;
use as_bottleneck::bottleneck::{
    common_run_of, find_as_bottleneck, find_common_suffix, first_hops_consistent, PathMap,
};

fn address(text: &str) -> Address {
    let (ip, mask) = match text.split_once('/') {
        Some((ip, mask)) => (ip, Some(mask.parse::<u8>().unwrap())),
        None => (text, None),
    };
    let mut value: u32 = 0;
    for part in ip.split('.') {
        value = (value << 8) | part.parse::<u8>().unwrap() as u32;
    }
    Address::new(IpAddress::V4(value), mask)
}

fn setup_mrt_hm() -> PathMap {
    let mut mrt_hm: PathMap = AddressMap::new();
    insert_path(&mut mrt_hm, address("195.66.225.77/0"), vec![64271, 62240, 3356]);
    insert_path(&mut mrt_hm, address("195.66.225.77/0"), vec![64271, 62240, 174]);
    insert_path(&mut mrt_hm, address("5.57.81.186/24"), vec![6894, 13335, 38803, 56203]);
    insert_path(&mut mrt_hm, address("5.57.81.186/24"), vec![6894, 13335, 4826, 174]);
    mrt_hm
}

fn runs_as_hashmap(m: &AddressMap<Vec<u32>>) -> HashMap<Address, Vec<u32>> {
    m.keys().into_iter().map(|a| (a, m.get(&a).unwrap().clone())).collect()
}

fn asns_as_hashmap(m: &AddressMap<u32>) -> HashMap<Address, u32> {
    m.keys().into_iter().map(|a| (a, *m.get(&a).unwrap())).collect()
}

#[test]
fn finds_common_suffix_from_mrt_hashmap() {
    let mut want: HashMap<Address, Vec<u32>> = HashMap::new();
    want.insert(address("195.66.225.77/0"), vec![64271, 62240]);
    want.insert(address("5.57.81.186/24"), vec![6894, 13335]);

    let mrt_hm = setup_mrt_hm();
    let mut have: AddressMap<Vec<u32>> = AddressMap::new();

    assert_eq!(find_common_suffix(&mrt_hm, &mut have), ());
    assert_eq!(runs_as_hashmap(&have), want);
}

#[test]
fn finds_as_bottleneck_from_mrt_hashmap() {
    let mut want: HashMap<Address, u32> = HashMap::new();
    want.insert(address("195.66.225.77/0"), 62240);
    want.insert(address("5.57.81.186/24"), 13335);

    let mrt_hm = setup_mrt_hm();
    let have = find_as_bottleneck(&mrt_hm);

    assert_eq!(asns_as_hashmap(&have), want);
}

#[test]
fn common_suffix_keeps_existing_entries() {
    let mrt_hm = setup_mrt_hm();
    let mut have: AddressMap<Vec<u32>> = AddressMap::new();
    let mut seed: PathMap = AddressMap::new();
    insert_path(&mut seed, address("195.66.225.77/0"), vec![1, 2, 3]);
    find_common_suffix(&seed, &mut have);
    find_common_suffix(&mrt_hm, &mut have);
    let runs = runs_as_hashmap(&have);
    assert_eq!(runs.len(), 2);
    assert_eq!(runs[&address("195.66.225.77/0")], vec![1, 2, 3]);
    assert_eq!(runs[&address("5.57.81.186/24")], vec![6894, 13335]);
}

#[test]
fn single_path_yields_whole_path_and_last_asn() {
    let mut m: PathMap = AddressMap::new();
    insert_path(&mut m, address("10.0.0.1/8"), vec![100, 200, 300]);
    let mut runs: AddressMap<Vec<u32>> = AddressMap::new();
    find_common_suffix(&m, &mut runs);
    assert_eq!(runs.get(&address("10.0.0.1/8")), Some(&vec![100, 200, 300]));
    let have = find_as_bottleneck(&m);
    assert_eq!(have.get(&address("10.0.0.1/8")), Some(&300));
}

#[test]
fn paths_sharing_only_first_hop_yield_that_hop() {
    let mut m: PathMap = AddressMap::new();
    insert_path(&mut m, address("10.0.0.1/8"), vec![5, 6, 7]);
    insert_path(&mut m, address("10.0.0.1/8"), vec![5, 8]);
    insert_path(&mut m, address("10.0.0.1/8"), vec![5, 6, 7, 9]);
    assert_eq!(find_as_bottleneck(&m).get(&address("10.0.0.1/8")), Some(&5));
}

#[test]
fn shorter_path_limits_the_run() {
    let paths = vec![vec![1, 2, 3, 4], vec![1, 2], vec![1, 2, 3]];
    assert_eq!(common_run_of(&paths), vec![1, 2]);
    let paths = vec![vec![1, 2, 3, 4], vec![1, 2, 3, 5]];
    assert_eq!(common_run_of(&paths), vec![1, 2, 3]);
}

#[test]
fn analysis_is_idempotent() {
    let m = setup_mrt_hm();
    let first = asns_as_hashmap(&find_as_bottleneck(&m));
    let second = asns_as_hashmap(&find_as_bottleneck(&m));
    assert_eq!(first, second);
}

#[test]
fn duplicate_paths_collapse() {
    let mut m: PathMap = AddressMap::new();
    insert_path(&mut m, address("10.0.0.1/8"), vec![1, 2]);
    insert_path(&mut m, address("10.0.0.1/8"), vec![1, 2]);
    assert_eq!(m.get(&address("10.0.0.1/8")).unwrap().len(), 1);
    assert_eq!(m.keys().len(), 1);
    assert!(m.get(&address("10.0.0.2/8")).is_none());
}

#[test]
fn consistency_check_finds_first_hop_mismatch() {
    let m = setup_mrt_hm();
    assert!(first_hops_consistent(&m));
    let mut bad: PathMap = AddressMap::new();
    insert_path(&mut bad, address("10.0.0.1/8"), vec![1, 2]);
    insert_path(&mut bad, address("10.0.0.1/8"), vec![3, 2]);
    assert!(!first_hops_consistent(&bad));
    let mut empty_path: PathMap = AddressMap::new();
    insert_path(&mut empty_path, address("10.0.0.1/8"), vec![]);
    assert!(!first_hops_consistent(&empty_path));
}
