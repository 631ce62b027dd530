//! The accumulator: an append-only Merkle Mountain Range over a pluggable
//! store and a pluggable hasher.
//!
//! All node hashes live in the store; the accumulator owns the authoritative
//! element and leaf counts and the current root hash, and every append keeps
//! the two counts tied together by the greedy decomposition — see
//! [`crate::helpers::lemma_append_counts`].

use crate::errors::MmrError;
use crate::hasher::IHasher;
use crate::helpers::{
    bit_len, count_of_leaves, find_peaks, find_siblings, greedy_peaks, is_valid_count,
    leaf_count_to_append_no_merges, lemma_append_counts, lemma_bit_len_bounds, lemma_bit_len_le,
    lemma_forest_inverse, lemma_greedy_peaks_shape, lemma_path_shift_ones, lemma_popcount_le,
    lemma_right_step_bound, lemma_trailing_ones_bits, lemma_trailing_ones_le_bit_len,
    lemma_walk_in_range, path_shift, spec_leaf_count, spec_peaks, spec_siblings, trailing_ones,
    MAX_ELEMENTS,
};
use vstd::arithmetic::div_mod::lemma_fundamental_div_mod_converse;
use crate::store::{IStore, StoreKey, TreeMetadataKeys};
use vstd::arithmetic::power2::{
    lemma2_to64, lemma2_to64_rest, lemma_pow2_pos, lemma_pow2_strictly_increases,
    lemma_pow2_unfold, pow2,
};
use vstd::prelude::*;

verus! {

broadcast use lemma_pow2_pos, lemma_pow2_unfold;

/// What one append reports: the counts and root as observed immediately
/// after the append completed, and the new element's own node index.
#[derive(Debug, PartialEq, Eq)]
pub struct AppendResult {
    pub leaves_count: u64,
    pub elements_count: u64,
    /// The index of the appended element.
    pub element_index: u64,
    pub root_hash: String,
}

/// What a proof retrieval reports: the authentication path of the element,
/// the current peak hashes, and the root they commit to.
#[derive(Debug, PartialEq, Eq)]
pub struct MmrProof {
    pub siblings_hashes: Vec<String>,
    pub peaks_hashes: Vec<String>,
    pub root_hash: String,
}

/// The hashes of the current peaks, left to right, as the store holds them.
pub open spec fn spec_peak_hashes(contents: Map<StoreKey, Seq<char>>, ec: nat) -> Seq<Seq<char>> {
    spec_peaks(ec).map_values(|p: int| contents[StoreKey::Node(p as u64)])
}

/// Node values in `(0, ec]` agree between two store states, so the peak
/// hashes of a count `ec` agree as well.
proof fn lemma_peak_hashes_stable(
    c1: Map<StoreKey, Seq<char>>,
    c2: Map<StoreKey, Seq<char>>,
    ec: nat,
)
    requires
        is_valid_count(ec),
        ec < MAX_ELEMENTS,
        forall|i: u64|
            1 <= i <= ec ==> #[trigger] c2[StoreKey::Node(i)] == c1[StoreKey::Node(i)],
    ensures
        spec_peak_hashes(c2, ec) == spec_peak_hashes(c1, ec),
{
    lemma_greedy_peaks_shape(ec as int, bit_len(ec), 0);
    assert forall|j: int| 0 <= j < spec_peaks(ec).len() implies #[trigger] spec_peak_hashes(
        c2,
        ec,
    )[j] == spec_peak_hashes(c1, ec)[j] by {
        let p = spec_peaks(ec)[j];
        assert(1 <= p <= ec);
        assert(c2[StoreKey::Node(p as u64)] == c1[StoreKey::Node(p as u64)]);
    }
    assert(spec_peak_hashes(c2, ec) =~= spec_peak_hashes(c1, ec));
}

/// The accumulator.  It holds only its two capabilities and the running
/// counts and root; node hashes are persisted solely through the store.
pub struct Mmr<S: IStore, H: IHasher> {
    pub store: S,
    pub hasher: H,
    pub elements_count: u64,
    pub leaves_count: u64,
    pub root_hash: String,
}

impl<S: IStore, H: IHasher> Mmr<S, H> {
    /// The accumulator invariant: the node count decomposes into mountains,
    /// the cached leaf count is the one the node count derives to, every
    /// node ever created has its hash in the store, and the root commits to
    /// the current peaks.
    pub open spec fn wf(&self) -> bool {
        &&& self.elements_count < MAX_ELEMENTS
        &&& is_valid_count(self.elements_count as nat)
        &&& self.leaves_count as nat == spec_leaf_count(self.elements_count as nat)
        &&& forall|i: u64|
            1 <= i <= self.elements_count ==> #[trigger] self.store.contents().contains_key(
                StoreKey::Node(i),
            )
        &&& self.elements_count > 0 ==> self.root_hash@ == self.hasher.hash_spec(
            spec_peak_hashes(self.store.contents(), self.elements_count as nat),
        )
        &&& self.elements_count == 0 ==> self.root_hash@ == Seq::<char>::empty()
    }

    /// A fresh, empty accumulator over the given capabilities.
    pub fn new(store: S, hasher: H) -> (m: Self)
        ensures
            m.wf(),
            m.elements_count == 0,
            m.leaves_count == 0,
            m.root_hash@ == Seq::<char>::empty(),
    {
        let m = Mmr { store, hasher, elements_count: 0, leaves_count: 0, root_hash: String::new() };
        proof {
            assert(is_valid_count(0));
        }
        m
    }

    /// Append one encoded value as a new leaf: hash it, store it under the
    /// next node index, merge equal-height mountains pairwise — once per
    /// trailing one-bit of the leaf count — and recommit the root over the
    /// new peaks.  On failure of a capability the error is handed back
    /// unchanged, the counts and root are untouched and the accumulator
    /// remains well-formed; nodes already written stay written.
    #[verifier::rlimit(100)]
    pub fn append(&mut self, value: String) -> (r: Result<AppendResult, MmrError>)
        requires
            old(self).wf(),
            old(self).elements_count + 64 < MAX_ELEMENTS,
        ensures
            final (self).hasher == old(self).hasher,
            r matches Err(e) ==> e == MmrError::BackendFailure,
            r matches Ok(res) ==> {
                &&& final (self).wf()
                &&& final (self).elements_count == old(self).elements_count + 1 + trailing_ones(
                    old(self).leaves_count as nat,
                )
                &&& final (self).leaves_count == old(self).leaves_count + 1
                &&& res.element_index == old(self).elements_count + 1
                &&& res.elements_count == final (self).elements_count
                &&& res.leaves_count == final (self).leaves_count
                &&& res.root_hash == final (self).root_hash
                &&& final (self).store.contents()[StoreKey::Node(res.element_index)]
                    == final (self).hasher.hash_spec(seq![value@])
                &&& forall|i: u64|
                    1 <= i <= old(self).elements_count ==> #[trigger] final (self).store.contents()[StoreKey::Node(i)] == old(
                        self,
                    ).store.contents()[StoreKey::Node(i)]
            },
            r is Err ==> {
                &&& final (self).wf()
                &&& final (self).elements_count == old(self).elements_count
                &&& final (self).leaves_count == old(self).leaves_count
                &&& final (self).root_hash == old(self).root_hash
                &&& forall|i: u64|
                    1 <= i <= old(self).elements_count ==> #[trigger] final (self).store.contents()[StoreKey::Node(i)] == old(
                        self,
                    ).store.contents()[StoreKey::Node(i)]
            },
    {
        let ghost value_view = value@;
        let ghost old_contents = self.store.contents();
        let elements_count = self.elements_count;
        let leaves_count = self.leaves_count;
        proof {
            lemma_append_counts(elements_count as nat, leaves_count as nat);
            lemma2_to64();
            lemma_popcount_le(leaves_count as nat);
            lemma_trailing_ones_le_bit_len(leaves_count as nat);
            lemma2_to64_rest();
            lemma_bit_len_le(leaves_count as nat, 62);
        }
        let mut hash_inputs: Vec<String> = Vec::new();
        hash_inputs.push(value);
        let mut last_hash = match self.hasher.hash(&hash_inputs) {
            Ok(h) => h,
            Err(e) => {
                proof {
                    lemma_peak_hashes_stable(
                        old_contents,
                        self.store.contents(),
                        elements_count as nat,
                    );
                }
                return Err(e);
            },
        };
        proof {
            assert(hash_inputs@.map_values(|s: String| s@) =~= seq![value_view]);
        }
        let leaf_index = elements_count + 1;
        match self.store.set(&StoreKey::Node(leaf_index), last_hash.as_str()) {
            Ok(u) => u,
            Err(e) => {
                proof {
                    lemma_peak_hashes_stable(
                        old_contents,
                        self.store.contents(),
                        elements_count as nat,
                    );
                }
                return Err(e);
            },
        };

        let no_merges = leaf_count_to_append_no_merges(leaves_count);
        let mut current_index = leaf_index;
        let mut two_h: u64 = 1;
        let mut merges_done: u64 = 0;
        while merges_done < no_merges
            invariant
                old(self).wf(),
                old(self).elements_count == elements_count,
                old(self).leaves_count == leaves_count,
                self.hasher == old(self).hasher,
                self.elements_count == elements_count,
                self.leaves_count == leaves_count,
                self.root_hash == old(self).root_hash,
                no_merges == trailing_ones(leaves_count as nat),
                no_merges <= 62,
                merges_done <= no_merges,
                elements_count + 64 < MAX_ELEMENTS,
                elements_count as int == count_of_leaves(leaves_count as nat),
                is_valid_count(elements_count as nat),
                old(self).store.contents() == old_contents,
                leaf_index == elements_count + 1,
                current_index == elements_count + 1 + merges_done,
                two_h == pow2(merges_done as nat),
                forall|i: u64|
                    1 <= i <= current_index ==> #[trigger] self.store.contents().contains_key(
                        StoreKey::Node(i),
                    ),
                forall|i: u64|
                    1 <= i <= elements_count ==> #[trigger] self.store.contents()[StoreKey::Node(
                        i,
                    )] == old_contents[StoreKey::Node(i)],
                self.store.contents()[StoreKey::Node(leaf_index)] == self.hasher.hash_spec(
                    seq![value_view],
                ),
                last_hash@ == self.store.contents()[StoreKey::Node(current_index)],
            decreases no_merges - merges_done,
        {
            proof {
                lemma_trailing_ones_bits(leaves_count as nat, merges_done as nat);
                lemma_path_shift_ones(leaves_count as nat, merges_done as nat);
                lemma_path_shift_ones(leaves_count as nat, (merges_done + 1) as nat);
                lemma_right_step_bound(leaves_count as nat, merges_done as nat);
                lemma2_to64_rest();
                if merges_done + 1 < 62 {
                    lemma_pow2_strictly_increases((merges_done + 1) as nat, 62);
                }
                assert(current_index as int == elements_count + 1 + path_shift(
                    leaves_count as nat,
                    merges_done as nat,
                ));
                assert(current_index >= pow2((merges_done + 1) as nat));
            }
            let siblings_offset = 2 * two_h - 1;
            let left_index = current_index - siblings_offset;
            let left_hash = match self.store.get(&StoreKey::Node(left_index)) {
                Ok(Some(h)) => h,
                Ok(None) => {
                    proof {
                        lemma_peak_hashes_stable(
                            old_contents,
                            self.store.contents(),
                            elements_count as nat,
                        );
                    }
                    return Err(MmrError::InvalidCount);
                },
                Err(e) => {
                    proof {
                        lemma_peak_hashes_stable(
                            old_contents,
                            self.store.contents(),
                            elements_count as nat,
                        );
                    }
                    return Err(e);
                },
            };
            let mut merge_inputs: Vec<String> = Vec::new();
            merge_inputs.push(left_hash);
            merge_inputs.push(last_hash);
            let parent_hash = match self.hasher.hash(&merge_inputs) {
                Ok(h) => h,
                Err(e) => {
                    proof {
                        lemma_peak_hashes_stable(
                            old_contents,
                            self.store.contents(),
                            elements_count as nat,
                        );
                    }
                    return Err(e);
                },
            };
            current_index = current_index + 1;
            match self.store.set(&StoreKey::Node(current_index), parent_hash.as_str()) {
                Ok(u) => u,
                Err(e) => {
                    proof {
                        lemma_peak_hashes_stable(
                            old_contents,
                            self.store.contents(),
                            elements_count as nat,
                        );
                    }
                    return Err(e);
                },
            };
            last_hash = parent_hash;
            merges_done = merges_done + 1;
            two_h = 2 * two_h;
        }

        let new_elements_count = current_index;
        let new_leaves_count = leaves_count + 1;
        let ghost mid_contents = self.store.contents();

        let peaks = find_peaks(new_elements_count);
        proof {
            lemma_greedy_peaks_shape(new_elements_count as int, bit_len(new_elements_count as nat), 0);
            assert forall|j: int| 0 <= j < peaks@.len() implies 1 <= #[trigger] peaks@[j]
                <= new_elements_count by {
                assert(peaks@.map_values(|p: u64| p as int)[j] == peaks@[j] as int);
                assert(spec_peaks(new_elements_count as nat)[j] == greedy_peaks(
                    new_elements_count as int,
                    bit_len(new_elements_count as nat),
                    0,
                )[j]);
            }
        }
        let mut peak_hashes: Vec<String> = Vec::new();
        let mut pi: usize = 0;
        while pi < peaks.len()
            invariant
                old(self).wf(),
                old(self).elements_count == elements_count,
                old(self).leaves_count == leaves_count,
                old(self).store.contents() == old_contents,
                self.hasher == old(self).hasher,
                self.elements_count == elements_count,
                self.leaves_count == leaves_count,
                self.root_hash == old(self).root_hash,
                self.store.contents() == mid_contents,
                pi <= peaks@.len(),
                is_valid_count(new_elements_count as nat),
                is_valid_count(elements_count as nat),
                elements_count <= new_elements_count < MAX_ELEMENTS,
                forall|i: u64|
                    1 <= i <= elements_count ==> #[trigger] self.store.contents()[StoreKey::Node(
                        i,
                    )] == old_contents[StoreKey::Node(i)],
                self.store.contents()[StoreKey::Node(leaf_index)] == self.hasher.hash_spec(
                    seq![value_view],
                ),
                leaf_index == elements_count + 1,
                peaks@.map_values(|p: u64| p as int) == spec_peaks(new_elements_count as nat),
                forall|j: int|
                    0 <= j < peaks@.len() ==> 1 <= #[trigger] peaks@[j] <= new_elements_count,
                forall|i: u64|
                    1 <= i <= new_elements_count ==> #[trigger] self.store.contents().contains_key(
                        StoreKey::Node(i),
                    ),
                peak_hashes@.len() == pi,
                forall|j: int|
                    0 <= j < pi ==> #[trigger] peak_hashes@[j]@ == spec_peak_hashes(
                        mid_contents,
                        new_elements_count as nat,
                    )[j],
            decreases peaks@.len() - pi,
        {
            let ph = match self.store.get(&StoreKey::Node(peaks[pi])) {
                Ok(Some(h)) => h,
                Ok(None) => {
                    proof {
                        lemma_peak_hashes_stable(
                            old_contents,
                            self.store.contents(),
                            elements_count as nat,
                        );
                    }
                    return Err(MmrError::InvalidCount);
                },
                Err(e) => {
                    proof {
                        lemma_peak_hashes_stable(
                            old_contents,
                            self.store.contents(),
                            elements_count as nat,
                        );
                    }
                    return Err(e);
                },
            };
            peak_hashes.push(ph);
            pi = pi + 1;
        }
        let root_hash = match self.hasher.hash(&peak_hashes) {
            Ok(h) => h,
            Err(e) => {
                proof {
                    lemma_peak_hashes_stable(
                        old_contents,
                        self.store.contents(),
                        elements_count as nat,
                    );
                }
                return Err(e);
            },
        };
        proof {
            assert(peak_hashes@.map_values(|s: String| s@) =~= spec_peak_hashes(
                mid_contents,
                new_elements_count as nat,
            ));
        }
        match self.store.set(&StoreKey::Meta(TreeMetadataKeys::RootHash), root_hash.as_str()) {
            Ok(u) => u,
            Err(e) => {
                proof {
                    lemma_peak_hashes_stable(
                        old_contents,
                        self.store.contents(),
                        elements_count as nat,
                    );
                }
                return Err(e);
            },
        };
        self.elements_count = new_elements_count;
        self.leaves_count = new_leaves_count;
        let result_root = root_hash.clone();
        self.root_hash = root_hash;
        proof {
            lemma_peak_hashes_stable(
                mid_contents,
                self.store.contents(),
                new_elements_count as nat,
            );
            lemma_peak_hashes_stable(old_contents, self.store.contents(), elements_count as nat);
        }
        Ok(
            AppendResult {
                leaves_count: new_leaves_count,
                elements_count: new_elements_count,
                element_index: leaf_index,
                root_hash: result_root,
            },
        )
    }

    /// Retrieve the inclusion proof of the element at `element_index`: its
    /// authentication path resolved to stored hashes, the current peak
    /// hashes, and the root they commit to.  An index of zero, one beyond
    /// the current node count, or one that is not a leaf is rejected as
    /// invalid; a backend failure is handed back unchanged.
    #[verifier::rlimit(100)]
    pub fn get_proof(&self, element_index: u64) -> (r: Result<MmrProof, MmrError>)
        requires
            self.wf(),
        ensures
            r matches Err(e) ==> e == MmrError::InvalidIndex || e == MmrError::BackendFailure,
            (r matches Err(e) && e == MmrError::InvalidIndex) <==> !(1 <= element_index
                <= self.elements_count && is_valid_count((element_index - 1) as nat)),
            r matches Ok(p) ==> {
                &&& p.siblings_hashes@.len() == spec_siblings(
                    element_index as nat,
                    self.elements_count as nat,
                ).len()
                &&& forall|i: int|
                    0 <= i < p.siblings_hashes@.len() ==> #[trigger] p.siblings_hashes@[i]@
                        == self.store.contents()[StoreKey::Node(
                        spec_siblings(element_index as nat, self.elements_count as nat)[i] as u64,
                    )]
                &&& p.peaks_hashes@.len() == spec_peaks(self.elements_count as nat).len()
                &&& forall|i: int|
                    0 <= i < p.peaks_hashes@.len() ==> #[trigger] p.peaks_hashes@[i]@
                        == spec_peak_hashes(
                        self.store.contents(),
                        self.elements_count as nat,
                    )[i]
                &&& p.root_hash == self.root_hash
            },
    {
        let elements_count = self.elements_count;
        if element_index == 0 || element_index > elements_count {
            return Err(MmrError::InvalidIndex);
        }
        let siblings = match find_siblings(element_index, elements_count) {
            Ok(s) => s,
            Err(e) => {
                return Err(e);
            },
        };
        let ghost l0: nat = spec_leaf_count((element_index - 1) as nat);
        let ghost sib_spec = spec_siblings(element_index as nat, elements_count as nat);
        proof {
            lemma2_to64();
            lemma_bit_len_bounds((element_index - 1) as nat);
            lemma_forest_inverse(element_index - 1, bit_len((element_index - 1) as nat));
            lemma_fundamental_div_mod_converse(l0 as int, 1, l0 as int, 0);
            lemma_walk_in_range(
                element_index as int,
                l0,
                0,
                elements_count as int,
                l0,
                element_index as int,
            );
            assert forall|i: int| 0 <= i < sib_spec.len() implies 1 <= #[trigger] sib_spec[i]
                <= elements_count by {}
        }
        let mut siblings_hashes: Vec<String> = Vec::new();
        let mut si: usize = 0;
        while si < siblings.len()
            invariant
                self.wf(),
                self.elements_count == elements_count,
                1 <= element_index <= elements_count,
                is_valid_count((element_index - 1) as nat),
                si <= siblings@.len(),
                siblings@.map_values(|x: u64| x as int) == sib_spec,
                forall|i: int| 0 <= i < sib_spec.len() ==> 1 <= #[trigger] sib_spec[i]
                    <= elements_count,
                siblings_hashes@.len() == si,
                forall|i: int|
                    0 <= i < si ==> #[trigger] siblings_hashes@[i]@ == self.store.contents()[
                        StoreKey::Node(sib_spec[i] as u64)],
            decreases siblings@.len() - si,
        {
            proof {
                assert(siblings@.map_values(|x: u64| x as int)[si as int] == siblings@[si as int]
                    as int);
            }
            let sh = match self.store.get(&StoreKey::Node(siblings[si])) {
                Ok(Some(h)) => h,
                Ok(None) => {
                    return Err(MmrError::InvalidCount);
                },
                Err(e) => {
                    return Err(e);
                },
            };
            siblings_hashes.push(sh);
            si = si + 1;
        }
        let peaks = find_peaks(elements_count);
        proof {
            lemma_greedy_peaks_shape(elements_count as int, bit_len(elements_count as nat), 0);
            assert forall|j: int| 0 <= j < peaks@.len() implies 1 <= #[trigger] peaks@[j]
                <= elements_count by {
                assert(peaks@.map_values(|p: u64| p as int)[j] == peaks@[j] as int);
                assert(spec_peaks(elements_count as nat)[j] == greedy_peaks(
                    elements_count as int,
                    bit_len(elements_count as nat),
                    0,
                )[j]);
            }
        }
        let mut peaks_hashes: Vec<String> = Vec::new();
        let mut pi: usize = 0;
        while pi < peaks.len()
            invariant
                self.wf(),
                self.elements_count == elements_count,
                1 <= element_index <= elements_count,
                is_valid_count((element_index - 1) as nat),
                pi <= peaks@.len(),
                peaks@.map_values(|p: u64| p as int) == spec_peaks(elements_count as nat),
                forall|j: int| 0 <= j < peaks@.len() ==> 1 <= #[trigger] peaks@[j]
                    <= elements_count,
                peaks_hashes@.len() == pi,
                forall|j: int|
                    0 <= j < pi ==> #[trigger] peaks_hashes@[j]@ == spec_peak_hashes(
                        self.store.contents(),
                        elements_count as nat,
                    )[j],
            decreases peaks@.len() - pi,
        {
            let ph = match self.store.get(&StoreKey::Node(peaks[pi])) {
                Ok(Some(h)) => h,
                Ok(None) => {
                    return Err(MmrError::InvalidCount);
                },
                Err(e) => {
                    return Err(e);
                },
            };
            peaks_hashes.push(ph);
            pi = pi + 1;
        }
        Ok(MmrProof { siblings_hashes, peaks_hashes, root_hash: self.root_hash.clone() })
    }
}

} // verus!
