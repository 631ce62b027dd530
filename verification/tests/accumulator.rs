use mmr::errors::MmrError;
use mmr::formatting::FormattingOptions;
use mmr::formatting::{format_peaks, format_proof};
use mmr::hasher::{DelimHasher, IHasher};
use mmr::helpers::elements_count_to_leaf_count;
use mmr::mmr::Mmr;
use mmr::store::{IStore, InMemoryStore, StoreKey};

fn opts(output_size: usize) -> FormattingOptions {
    FormattingOptions { output_size, null_value: String::from("0x0") }
}

#[test]
fn format_peaks_pads_to_declared_width() {
    let out = format_peaks(vec![String::from("a"), String::from("b")], &opts(4)).unwrap();
    assert_eq!(out, vec!["a", "b", "0x0", "0x0"]);
}

#[test]
fn format_proof_pads_and_keeps_order() {
    let out = format_proof(vec![String::from("x"), String::from("y")], opts(3)).unwrap();
    assert_eq!(out, vec!["x", "y", "0x0"]);
    let exact = format_proof(vec![String::from("x")], opts(1)).unwrap();
    assert_eq!(exact, vec!["x"]);
}

#[test]
fn format_rejects_oversized_input() {
    let too_long = vec![String::from("a"), String::from("b"), String::from("c")];
    assert_eq!(format_peaks(too_long.clone(), &opts(2)), Err(MmrError::FormattingOverflow));
    assert_eq!(format_proof(too_long, opts(2)), Err(MmrError::FormattingOverflow));
}

#[test]
fn in_memory_store_roundtrip() {
    let mut store = InMemoryStore::new();
    assert_eq!(store.get(&StoreKey::Node(1)), Ok(None));
    store.set(&StoreKey::Node(1), "h1").unwrap();
    assert_eq!(store.get(&StoreKey::Node(1)), Ok(Some(String::from("h1"))));
    store.set(&StoreKey::Node(1), "h2").unwrap();
    assert_eq!(store.get(&StoreKey::Node(1)), Ok(Some(String::from("h2"))));
    assert_eq!(store.get(&StoreKey::Node(2)), Ok(None));
}

#[test]
fn delim_hasher_wraps_each_input() {
    let h = DelimHasher::new();
    assert_eq!(h.hash(&vec![String::from("ab"), String::from("c")]).unwrap(), "(ab)(c)");
    assert_eq!(h.hash(&Vec::new()).unwrap(), "");
}

#[test]
fn append_sequence_counts_and_roots() {
    // appending "0", "1", "2" gives node counts 1, 3, 4: the second append
    // merges once, the third does not
    let mut acc = Mmr::new(InMemoryStore::new(), DelimHasher::new());

    let r0 = acc.append(String::from("0")).unwrap();
    assert_eq!(r0.elements_count, 1);
    assert_eq!(r0.leaves_count, 1);
    assert_eq!(r0.element_index, 1);

    let r1 = acc.append(String::from("1")).unwrap();
    assert_eq!(r1.elements_count, 3);
    assert_eq!(r1.leaves_count, 2);
    assert_eq!(r1.element_index, 2);

    let r2 = acc.append(String::from("2")).unwrap();
    assert_eq!(r2.elements_count, 4);
    assert_eq!(r2.leaves_count, 3);
    assert_eq!(r2.element_index, 4);

    // the root changes after every append and never repeats
    assert_ne!(r0.root_hash, r1.root_hash);
    assert_ne!(r1.root_hash, r2.root_hash);
    assert_ne!(r0.root_hash, r2.root_hash);

    // with the delimiting combiner the roots are predictable
    assert_eq!(r0.root_hash, "((0))");
    assert_eq!(r1.root_hash, "(((0))((1)))");
    assert_eq!(r2.root_hash, "(((0))((1)))((2))");
}

#[test]
fn derived_leaf_count_matches_tracked_leaf_count() {
    let mut acc = Mmr::new(InMemoryStore::new(), DelimHasher::new());
    for i in 0..20u32 {
        let res = acc.append(i.to_string()).unwrap();
        assert_eq!(elements_count_to_leaf_count(res.elements_count), Ok(res.leaves_count));
        assert_eq!(res.leaves_count, u64::from(i) + 1);
    }
}

#[test]
fn proof_siblings_recombine_to_the_peak() {
    let mut acc = Mmr::new(InMemoryStore::new(), DelimHasher::new());
    acc.append(String::from("0")).unwrap();
    acc.append(String::from("1")).unwrap();
    acc.append(String::from("2")).unwrap();
    // four nodes: leaves 1, 2 merged under 3; leaf 4 alone
    let proof = acc.get_proof(1).unwrap();
    assert_eq!(proof.siblings_hashes, vec![String::from("(1)")]);
    assert_eq!(proof.peaks_hashes.len(), 2);
    assert_eq!(proof.root_hash, "(((0))((1)))((2))");

    // bottom-up recombination from leaf 1 with its sibling reproduces the
    // first peak's hash
    let hasher = DelimHasher::new();
    let leaf_hash = hasher.hash(&vec![String::from("0")]).unwrap();
    let recombined = hasher.hash(&vec![leaf_hash, proof.siblings_hashes[0].clone()]).unwrap();
    assert_eq!(recombined, proof.peaks_hashes[0]);
}

#[test]
fn proof_recombines_over_two_levels() {
    let mut acc = Mmr::new(InMemoryStore::new(), DelimHasher::new());
    for i in 0..4u32 {
        acc.append(i.to_string()).unwrap();
    }
    // seven nodes, one mountain: leaf 4 carries value "2", its siblings are
    // leaf 5 and the internal node 3
    assert_eq!(acc.elements_count, 7);
    let proof = acc.get_proof(4).unwrap();
    assert_eq!(proof.siblings_hashes.len(), 2);
    assert_eq!(proof.peaks_hashes.len(), 1);

    let hasher = DelimHasher::new();
    let leaf_hash = hasher.hash(&vec![String::from("2")]).unwrap();
    // leaf 4 is a left child, then node 6 is a right child
    let level_one = hasher.hash(&vec![leaf_hash, proof.siblings_hashes[0].clone()]).unwrap();
    let level_two = hasher.hash(&vec![proof.siblings_hashes[1].clone(), level_one]).unwrap();
    assert_eq!(level_two, proof.peaks_hashes[0]);
    assert_eq!(acc.root_hash, hasher.hash(&proof.peaks_hashes).unwrap());
}

#[test]
fn proof_rejects_invalid_indices() {
    let mut acc = Mmr::new(InMemoryStore::new(), DelimHasher::new());
    acc.append(String::from("0")).unwrap();
    acc.append(String::from("1")).unwrap();
    assert_eq!(acc.get_proof(0).unwrap_err(), MmrError::InvalidIndex);
    // node 3 is internal, not a leaf
    assert_eq!(acc.get_proof(3).unwrap_err(), MmrError::InvalidIndex);
    assert_eq!(acc.get_proof(4).unwrap_err(), MmrError::InvalidIndex);
}
