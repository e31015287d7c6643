//! The fixture generator: a randomized MMR, a random subset of its leaves,
//! and the witnesses that disclose the subset to a verifier.
//!
//! Everything random comes from one generator that a seed determines, so a
//! seed determines the fixture. What the generator and the MMR hand back is
//! taken as it comes; what is built from it is checked here.

use crate::compiled::{encode_leaves, encode_proof, payloads, records, Blake2bHash,
    VariableBytes};
use crate::driver::Slot;
use crate::error::DecodeError;
use crate::hash::HASH_LEN;
use crate::format::{ascending, items_fit, leaves_fit, leaves_wire, lemma_parse_leaves_wire,
    lemma_parse_proof_wire, malformation, parse_leaves, parse_proof, positions_of, proof_wire};
use crate::wire::{le_bytes, lemma_pow256_widths, push_le};
use ckb_merkle_mountain_range::util::MemStore;
use ckb_merkle_mountain_range::{MerkleProof, MMR};
use rand::rngs::StdRng;
use vstd::prelude::*;

verus! {

/// The fewest leaves of a generated MMR.
pub const MIN_LEAVES: i32 = 1000;

/// One more than the most leaves of a generated MMR.
pub const END_LEAVES: i32 = 3000;

/// The fewest leaves that a fixture discloses.
pub const MIN_DISCLOSED: usize = 1;

/// One more than the most leaves that a fixture discloses.
pub const END_DISCLOSED: usize = 100;

/// The random number generator of `rand` that a seed determines.
#[verifier::external_type_specification]
#[verifier::external_body]
pub struct ExStdRng(StdRng);

/// The store of `ckb_merkle_mountain_range` that keeps the nodes of an MMR
/// in memory.
#[verifier::external_type_specification]
#[verifier::external_body]
#[verifier::reject_recursive_types(T)]
pub struct ExMemStore<T>(MemStore<T>);

/// The MMR of `ckb_merkle_mountain_range`.
#[verifier::external_type_specification]
#[verifier::external_body]
#[verifier::reject_recursive_types(T)]
#[verifier::reject_recursive_types(M)]
#[verifier::reject_recursive_types(S)]
pub struct ExMmr<T, M, S>(MMR<T, M, S>);

/// The proof that `ckb_merkle_mountain_range` generates.
#[verifier::external_type_specification]
#[verifier::external_body]
#[verifier::reject_recursive_types(T)]
#[verifier::reject_recursive_types(M)]
pub struct ExMerkleProof<T, M>(MerkleProof<T, M>);

/// The size of an MMR: the number of its nodes, which is also the position
/// that the next leaf gets.
pub uninterp spec fn mmr_size_of(
    mmr: MMR<VariableBytes, Blake2bHash, &MemStore<VariableBytes>>,
) -> u64;

/// The 256-bit digest that `ckb_hash` computes of `data`.
pub uninterp spec fn content_hash(data: Seq<u8>) -> Seq<u8>;

/// A generator that `seed` determines.
///
/// Trusted: calls `StdRng::seed_from_u64`. Nothing is claimed of the
/// generator.
#[verifier::external_body]
fn seeded(seed: u64) -> StdRng {
    rand::SeedableRng::seed_from_u64(seed)
}

/// A random number from `low` up to, not including, `high`.
///
/// Trusted: calls `Rng::gen_range` on the half-open range, which panics on
/// an empty range and otherwise returns a value of the range. Which value
/// is not claimed.
#[verifier::external_body]
fn draw_i32(rng: &mut StdRng, low: i32, high: i32) -> (n: i32)
    requires
        low < high,
    ensures
        low <= n < high,
{
    rand::Rng::gen_range(rng, low..high)
}

/// A random number from `low` up to, not including, `high`.
///
/// Trusted: calls `Rng::gen_range` on the half-open range, which panics on
/// an empty range and otherwise returns a value of the range. Which value
/// is not claimed.
#[verifier::external_body]
fn draw_usize(rng: &mut StdRng, low: usize, high: usize) -> (n: usize)
    requires
        low < high,
    ensures
        low <= n < high,
{
    rand::Rng::gen_range(rng, low..high)
}

/// Thirty-two random bytes.
///
/// Trusted: calls `RngCore::fill_bytes` on a buffer of 32 bytes. Nothing is
/// claimed of the bytes.
#[verifier::external_body]
fn draw_leaf(rng: &mut StdRng) -> [u8; 32] {
    let mut data = [0u8; 32];
    rand::RngCore::fill_bytes(rng, &mut data[..]);
    data
}

/// Reorders `values` at random.
///
/// Trusted: calls `SliceRandom::shuffle`, which only swaps elements of the
/// slice; the contract says that the values are the same ones, each as
/// often as before. In which order is not claimed.
#[verifier::external_body]
fn shuffle(rng: &mut StdRng, values: &mut Vec<u64>)
    ensures
        final(values)@.to_multiset() == old(values)@.to_multiset(),
{
    rand::seq::SliceRandom::shuffle(&mut values[..], rng);
}

/// Sorts `values` in ascending order.
///
/// Trusted: calls `sort` of the standard library on the slice; the
/// contract says that the values are the same ones, each as often as
/// before, and that none is followed by a smaller one.
#[verifier::external_body]
fn sort(values: &mut Vec<u64>)
    ensures
        final(values)@.to_multiset() == old(values)@.to_multiset(),
        forall|i: int, j: int|
            0 <= i <= j < final(values)@.len() ==> final(values)@[i] <= final(values)@[j],
{
    values.sort();
}

/// The digest of `data`.
///
/// Trusted: calls `ckb_hash::blake2b_256`; the contract names what it
/// returns.
#[verifier::external_body]
fn blake2b_256(data: &[u8]) -> (digest: [u8; 32])
    ensures
        digest@ == content_hash(data@),
{
    ckb_hash::blake2b_256(data)
}

/// An empty store.
///
/// Trusted: calls `MemStore::default`. Nothing is claimed of the store.
#[verifier::external_body]
fn new_store() -> MemStore<VariableBytes> {
    MemStore::default()
}

/// An MMR of `mmr_size` nodes over `store`.
///
/// Trusted: calls `MMR::new`, which records the size it is given.
#[verifier::external_body]
fn open_mmr<'a>(mmr_size: u64, store: &'a MemStore<VariableBytes>) -> (mmr: MMR<
    VariableBytes,
    Blake2bHash,
    &'a MemStore<VariableBytes>,
>)
    ensures
        mmr_size_of(mmr) == mmr_size,
{
    MMR::new(mmr_size, store)
}

/// Appends a leaf and returns its position.
///
/// Trusted: calls `MMR::push`, which on success returns the size that the
/// MMR had, and grows the MMR by the leaf and one parent for each peak that
/// the leaf completes, at most 64 of them. On failure nothing is claimed.
/// The size before the call is kept away from the end of `u64`, where the
/// new size would not fit.
#[verifier::external_body]
fn push<'a>(
    mmr: &mut MMR<VariableBytes, Blake2bHash, &'a MemStore<VariableBytes>>,
    leaf: VariableBytes,
) -> (position: Result<u64, ckb_merkle_mountain_range::Error>)
    requires
        mmr_size_of(*old(mmr)) <= u64::MAX - 65,
    ensures
        position matches Ok(p) ==> {
            &&& p == mmr_size_of(*old(mmr))
            &&& mmr_size_of(*old(mmr)) < mmr_size_of(*final(mmr)) <= mmr_size_of(*old(mmr)) + 65
        },
{
    mmr.push(leaf)
}

/// The size of the MMR.
///
/// Trusted: calls `MMR::mmr_size`, the getter of the size.
#[verifier::external_body]
fn mmr_size<'a>(mmr: &MMR<VariableBytes, Blake2bHash, &'a MemStore<VariableBytes>>) -> (size: u64)
    ensures
        size == mmr_size_of(*mmr),
{
    mmr.mmr_size()
}

/// Writes the nodes that were appended through to the store.
///
/// Trusted: calls `MMR::commit`. Nothing is claimed of the outcome.
#[verifier::external_body]
fn commit<'a>(mmr: &mut MMR<VariableBytes, Blake2bHash, &'a MemStore<VariableBytes>>) -> Result<
    (),
    ckb_merkle_mountain_range::Error,
> {
    mmr.commit()
}

/// The root of the MMR.
///
/// Trusted: calls `MMR::get_root`. Nothing is claimed of the outcome.
#[verifier::external_body]
fn get_root<'a>(mmr: &MMR<VariableBytes, Blake2bHash, &'a MemStore<VariableBytes>>) -> Result<
    VariableBytes,
    ckb_merkle_mountain_range::Error,
> {
    mmr.get_root()
}

/// A proof for the leaves at `positions`.
///
/// Trusted: calls `MMR::gen_proof`. Nothing is claimed of the outcome.
#[verifier::external_body]
fn gen_proof<'a>(
    mmr: &MMR<VariableBytes, Blake2bHash, &'a MemStore<VariableBytes>>,
    positions: Vec<u64>,
) -> Result<MerkleProof<VariableBytes, Blake2bHash>, ckb_merkle_mountain_range::Error> {
    mmr.gen_proof(positions)
}

/// The size of the MMR that a proof was generated for.
///
/// Trusted: calls `MerkleProof::mmr_size`. Nothing is claimed of it.
#[verifier::external_body]
fn proof_mmr_size(proof: &MerkleProof<VariableBytes, Blake2bHash>) -> u64 {
    proof.mmr_size()
}

/// The siblings of a proof.
///
/// Trusted: calls `MerkleProof::proof_items` and copies the slice. Nothing
/// is claimed of the items.
#[verifier::external_body]
fn proof_items(proof: &MerkleProof<VariableBytes, Blake2bHash>) -> Vec<VariableBytes> {
    proof.proof_items().to_vec()
}

/// The node that the store keeps at `position`, if any.
///
/// Trusted: calls `MMRStoreReadOps::get_elem` on the store. Nothing is
/// claimed of the outcome.
#[verifier::external_body]
fn get_elem(store: &MemStore<VariableBytes>, position: u64) -> Result<
    Option<VariableBytes>,
    ckb_merkle_mountain_range::Error,
> {
    ckb_merkle_mountain_range::MMRStoreReadOps::get_elem(&store, position)
}

/// Why no fixture was generated.
#[derive(Clone, Copy, Debug, PartialEq, Eq, Structural)]
pub enum GenError {
    /// The MMR gave up on an append, a commit, a root, a proof or a lookup.
    Mmr,
    /// The store keeps nothing at the position of a disclosed leaf.
    MissingLeaf,
    /// A witness could not be encoded, or the root is not one digest long.
    Encode(DecodeError),
}

/// What the MMR handed back, or the error of the generator where the MMR
/// gave up.
pub fn settled<T>(outcome: Result<T, ckb_merkle_mountain_range::Error>) -> (value: Result<
    T,
    GenError,
>)
    ensures
        match outcome {
            Ok(v) => value == Ok::<T, GenError>(v),
            Err(_) => value == Err::<T, GenError>(GenError::Mmr),
        },
{
    match outcome {
        Ok(v) => Ok(v),
        Err(_) => Err(GenError::Mmr),
    }
}

/// The leaf record for `position`, given what a lookup of the position in
/// the store handed back.
pub fn looked_up(
    position: u64,
    found: Result<Option<VariableBytes>, ckb_merkle_mountain_range::Error>,
) -> (leaf: Result<(u64, VariableBytes), GenError>)
    ensures
        match found {
            Ok(Some(value)) => leaf == Ok::<(u64, VariableBytes), GenError>((position, value)),
            Ok(None) => leaf == Err::<(u64, VariableBytes), GenError>(GenError::MissingLeaf),
            Err(_) => leaf == Err::<(u64, VariableBytes), GenError>(GenError::Mmr),
        },
{
    match found {
        Ok(Some(value)) => Ok((position, value)),
        Ok(None) => Err(GenError::MissingLeaf),
        Err(_) => Err(GenError::Mmr),
    }
}

/// The first `count` of `shuffled`, sorted: the same values, each as often,
/// none followed by a smaller one, and strictly ascending where `shuffled`
/// holds no value twice.
pub fn pick(shuffled: &Vec<u64>, count: usize) -> (chosen: Vec<u64>)
    requires
        count <= shuffled@.len(),
    ensures
        chosen@.len() == count,
        chosen@.to_multiset() == shuffled@.take(count as int).to_multiset(),
        forall|i: int, j: int| 0 <= i <= j < chosen@.len() ==> chosen@[i] <= chosen@[j],
        shuffled@.no_duplicates() ==> ascending(chosen@),
{
    let mut chosen: Vec<u64> = Vec::new();
    let mut i: usize = 0;
    while i < count
        invariant
            i <= count <= shuffled@.len(),
            chosen@ == shuffled@.take(i as int),
        decreases count - i,
    {
        chosen.push(shuffled[i]);
        proof {
            assert(shuffled@.take(i + 1) =~= shuffled@.take(i as int).push(shuffled@[i as int]));
        }
        i = i + 1;
    }
    let ghost prefix = chosen@;
    sort(&mut chosen);
    proof {
        vstd::seq_lib::to_multiset_len(prefix);
        vstd::seq_lib::to_multiset_len(chosen@);
        if shuffled@.no_duplicates() {
            assert(prefix.no_duplicates());
            lemma_same_values_no_duplicates(prefix, chosen@);
            assert forall|a: int, b: int| 0 <= a < b < chosen@.len() implies #[trigger] chosen@[a]
                < #[trigger] chosen@[b] by {
                assert(chosen@[a] <= chosen@[b]);
                assert(chosen@[a] != chosen@[b]);
            }
        }
    }
    chosen
}

/// A list that holds the same values as a list without duplicates, each as
/// often, has no duplicates either.
pub proof fn lemma_same_values_no_duplicates(a: Seq<u64>, b: Seq<u64>)
    requires
        a.no_duplicates(),
        a.to_multiset() == b.to_multiset(),
    ensures
        b.no_duplicates(),
{
    a.lemma_multiset_has_no_duplicates();
    b.lemma_multiset_has_no_duplicates_conv();
}

/// A strictly ascending list has no duplicates.
pub proof fn lemma_ascending_no_duplicates(values: Seq<u64>)
    requires
        ascending(values),
    ensures
        values.no_duplicates(),
{
    assert forall|i: int, j: int|
        0 <= i < values.len() && 0 <= j < values.len() && i != j implies values[i]
        != values[j] by {
        if i < j {
            assert(values[i] < values[j]);
        } else {
            assert(values[j] < values[i]);
        }
    }
}

/// Chooses `count` of `positions` at random and returns them sorted. No
/// position is chosen more often than it occurs: where `positions` holds no
/// value twice, neither does the choice, which then strictly ascends.
pub fn select(rng: &mut StdRng, positions: &Vec<u64>, count: usize) -> (chosen: Vec<u64>)
    requires
        count <= positions@.len(),
    ensures
        chosen@.len() == count,
        forall|i: int, j: int| 0 <= i <= j < chosen@.len() ==> chosen@[i] <= chosen@[j],
        forall|i: int| 0 <= i < chosen@.len() ==> positions@.contains(#[trigger] chosen@[i]),
        forall|value: u64| chosen@.to_multiset().count(value) <= positions@.to_multiset().count(value),
        positions@.no_duplicates() ==> ascending(chosen@),
{
    let mut source: Vec<u64> = positions.clone();
    proof {
        assert(source@ =~= positions@);
    }
    shuffle(rng, &mut source);
    proof {
        vstd::seq_lib::to_multiset_len(positions@);
        vstd::seq_lib::to_multiset_len(source@);
        if positions@.no_duplicates() {
            lemma_same_values_no_duplicates(positions@, source@);
        }
    }
    let chosen = pick(&source, count);
    proof {
        let prefix = source@.take(count as int);
        let behind = source@.skip(count as int);
        assert(source@ =~= prefix + behind);
        vstd::seq_lib::lemma_multiset_commutative(prefix, behind);
        assert forall|value: u64| chosen@.to_multiset().count(value)
            <= positions@.to_multiset().count(value) by {
            assert(source@.to_multiset().count(value) == prefix.to_multiset().count(value)
                + behind.to_multiset().count(value));
        }
        assert forall|i: int| 0 <= i < chosen@.len() implies positions@.contains(
            #[trigger] chosen@[i],
        ) by {
            let value = chosen@[i];
            assert(chosen@.contains(value));
            vstd::seq_lib::to_multiset_contains(chosen@, value);
            vstd::seq_lib::to_multiset_contains(positions@, value);
        }
    }
    chosen
}

/// Appends `count` random leaves of 32 bytes to an empty MMR and returns
/// their positions, in the order in which they were appended. The first
/// leaf gets position zero, every later one a higher position than the one
/// before, and all of them lie within the MMR as it then stands, which has
/// grown by at least one node and at most 65 for each leaf. Nothing is
/// appended, and nothing can fail, where `count` is zero; otherwise the
/// only failure is that the MMR gives up on an append.
fn grow<'a>(
    rng: &mut StdRng,
    mmr: &mut MMR<VariableBytes, Blake2bHash, &'a MemStore<VariableBytes>>,
    count: i32,
) -> (positions: Result<Vec<u64>, GenError>)
    requires
        mmr_size_of(*old(mmr)) == 0,
        0 <= count <= END_LEAVES,
    ensures
        count == 0 ==> positions is Ok && *final(mmr) == *old(mmr),
        positions matches Ok(p) ==> {
            &&& p@.len() == count
            &&& ascending(p@)
            &&& count > 0 ==> p@[0] == 0
            &&& forall|k: int| 0 <= k < p@.len() ==> p@[k] < mmr_size_of(*final(mmr))
            &&& count <= mmr_size_of(*final(mmr)) <= 65 * count
        },
        positions matches Err(e) ==> e == GenError::Mmr,
{
    let mut positions: Vec<u64> = Vec::new();
    let mut i: i32 = 0;
    while i < count
        invariant
            0 <= i <= count <= END_LEAVES,
            positions@.len() == i,
            i == 0 ==> *mmr == *old(mmr),
            i <= mmr_size_of(*mmr) <= 65 * i,
            ascending(positions@),
            i > 0 ==> positions@[0] == 0,
            forall|k: int| 0 <= k < positions@.len() ==> positions@[k] < mmr_size_of(*mmr),
        decreases count - i,
    {
        let leaf = VariableBytes::Dynamic(draw_leaf_bytes(rng));
        match settled(push(mmr, leaf)) {
            Ok(position) => {
                positions.push(position);
            },
            Err(e) => {
                return Err(e);
            },
        }
        i = i + 1;
    }
    Ok(positions)
}

/// Thirty-two random bytes, as the value of a leaf.
fn draw_leaf_bytes(rng: &mut StdRng) -> (bytes: Vec<u8>)
    ensures
        bytes@.len() == 32,
{
    let data = draw_leaf(rng);
    vstd::slice::slice_to_vec(data.as_slice())
}

/// Looks up the leaves at `chosen` in the store, one position after the
/// other, and returns one leaf record for each position, in the same order.
/// Nothing is looked up, and nothing can fail, where `chosen` is empty;
/// otherwise the only failures are that the store keeps nothing at a
/// position and that a lookup gives up.
fn collect(store: &MemStore<VariableBytes>, chosen: &Vec<u64>) -> (leaves: Result<
    Vec<(u64, VariableBytes)>,
    GenError,
>)
    ensures
        chosen@.len() == 0 ==> leaves is Ok,
        leaves matches Ok(l) ==> l@.len() == chosen@.len() && positions_of(l@) == chosen@,
        leaves matches Err(e) ==> e == GenError::MissingLeaf || e == GenError::Mmr,
{
    let mut leaves: Vec<(u64, VariableBytes)> = Vec::new();
    let mut i: usize = 0;
    proof {
        assert(positions_of(leaves@) =~= chosen@.take(0));
    }
    while i < chosen.len()
        invariant
            i <= chosen.len(),
            positions_of(leaves@) == chosen@.take(i as int),
        decreases chosen.len() - i,
    {
        let position: u64 = chosen[i];
        let leaf = match looked_up(position, get_elem(store, position)) {
            Ok(leaf) => leaf,
            Err(e) => {
                return Err(e);
            },
        };
        proof {
            let before = positions_of(leaves@);
            assert(chosen@.take(i + 1) =~= chosen@.take(i as int).push(position));
            assert(positions_of(leaves@.push(leaf)) =~= before.push(position));
        }
        leaves.push(leaf);
        i = i + 1;
    }
    proof {
        assert(chosen@.take(i as int) =~= chosen@);
    }
    Ok(leaves)
}

/// The witnesses that disclose a subset of leaves.
pub struct Witnesses {
    pub root: Vec<u8>,
    pub proof: Vec<u8>,
    pub leaves: Vec<u8>,
}

/// Encodes what a verifier is to be given: the root as it is, the proof
/// and the leaves in their wire formats. Fails exactly when the root is not
/// one digest long or when an item or a leaf value is longer than two bytes
/// can declare.
pub fn assemble(
    root: &VariableBytes,
    mmr_size: u64,
    items: &Vec<VariableBytes>,
    leaves: &Vec<(u64, VariableBytes)>,
) -> (assembled: Result<Witnesses, GenError>)
    ensures
        match assembled {
            Ok(w) => {
                &&& root@.len() == 32
                &&& items_fit(payloads(items@))
                &&& leaves_fit(records(leaves@))
                &&& w.root@ == root@
                &&& w.proof@ == proof_wire(mmr_size, payloads(items@))
                &&& w.leaves@ == leaves_wire(records(leaves@))
            },
            Err(GenError::Encode(DecodeError::BadRootLength)) => root@.len() != 32,
            Err(GenError::Encode(DecodeError::ItemTooLarge)) => root@.len() == 32 && !(items_fit(
                payloads(items@),
            ) && leaves_fit(records(leaves@))),
            Err(_) => false,
        },
{
    if root.as_bytes().len() != HASH_LEN {
        return Err(GenError::Encode(DecodeError::BadRootLength));
    }
    let proof = match encode_proof(mmr_size, items) {
        Ok(bytes) => bytes,
        Err(e) => {
            return Err(GenError::Encode(e));
        },
    };
    let leaves = match encode_leaves(leaves) {
        Ok(bytes) => bytes,
        Err(e) => {
            return Err(GenError::Encode(e));
        },
    };
    Ok(Witnesses { root: vstd::slice::slice_to_vec(root.as_bytes()), proof, leaves })
}

/// What one run of the generator produced.
pub struct Generated {
    /// How many leaves the MMR has.
    pub leaf_count: i32,
    /// The size of the MMR.
    pub mmr_size: u64,
    /// The positions of all leaves, in the order in which they were
    /// appended.
    pub positions: Vec<u64>,
    /// The positions of the disclosed leaves.
    pub chosen: Vec<u64>,
    /// The siblings of the proof.
    pub items: Vec<VariableBytes>,
    /// The disclosed leaves.
    pub leaves: Vec<(u64, VariableBytes)>,
    /// The witnesses that disclose them.
    pub witnesses: Witnesses,
}

impl Generated {
    /// What holds of everything the generator returns: the counts are in
    /// their ranges, there is one position for each leaf, the first of
    /// them zero and each higher than the one before, the disclosed
    /// positions are positions of leaves and strictly ascend, there is one
    /// leaf record for each of them, and the witnesses are the encodings
    /// of the root, the proof and the leaves.
    pub open spec fn well_formed(&self) -> bool {
        &&& MIN_LEAVES <= self.leaf_count < END_LEAVES
        &&& self.positions@.len() == self.leaf_count
        &&& ascending(self.positions@)
        &&& self.positions@[0] == 0
        &&& MIN_DISCLOSED <= self.chosen@.len() < END_DISCLOSED
        &&& ascending(self.chosen@)
        &&& forall|i: int|
            0 <= i < self.chosen@.len() ==> self.positions@.contains(#[trigger] self.chosen@[i])
        &&& self.leaves@.len() == self.chosen@.len()
        &&& positions_of(self.leaves@) == self.chosen@
        &&& self.witnesses.root@.len() == 32
        &&& items_fit(payloads(self.items@))
        &&& leaves_fit(records(self.leaves@))
        &&& self.witnesses.proof@ == proof_wire(self.mmr_size, payloads(self.items@))
        &&& self.witnesses.leaves@ == leaves_wire(records(self.leaves@))
    }
}

/// Builds an MMR of random leaves, commits it, chooses leaves to disclose
/// and produces the witnesses that disclose them. The seed determines every
/// random choice. Whatever is returned is well formed. An error is returned
/// where the MMR gives up, where the store keeps nothing at a disclosed
/// position, where the root is not one digest long, and where an item or a
/// leaf value is too long to be declared; no other error is.
pub fn generate(seed: u64) -> (generated: Result<Generated, GenError>)
    ensures
        generated matches Ok(g) ==> g.well_formed(),
        generated matches Err(GenError::Encode(e)) ==> e == DecodeError::BadRootLength || e
            == DecodeError::ItemTooLarge,
{
    let mut rng = seeded(seed);
    let store = new_store();
    let mut mmr = open_mmr(0, &store);
    let leaf_count: i32 = draw_i32(&mut rng, MIN_LEAVES, END_LEAVES);
    let disclosed: usize = draw_usize(&mut rng, MIN_DISCLOSED, END_DISCLOSED);
    let positions = match grow(&mut rng, &mut mmr, leaf_count) {
        Ok(p) => p,
        Err(e) => {
            return Err(e);
        },
    };
    let size: u64 = mmr_size(&mmr);
    match settled(commit(&mut mmr)) {
        Ok(()) => {},
        Err(e) => {
            return Err(e);
        },
    }
    proof {
        lemma_ascending_no_duplicates(positions@);
    }
    let chosen = select(&mut rng, &positions, disclosed);
    let mmr = open_mmr(size, &store);
    let root = match settled(get_root(&mmr)) {
        Ok(r) => r,
        Err(e) => {
            return Err(e);
        },
    };
    let proof = match settled(gen_proof(&mmr, chosen.clone())) {
        Ok(p) => p,
        Err(e) => {
            return Err(e);
        },
    };
    let leaves = match collect(&store, &chosen) {
        Ok(l) => l,
        Err(e) => {
            return Err(e);
        },
    };
    let items = proof_items(&proof);
    let mmr_size: u64 = proof_mmr_size(&proof);
    let witnesses = match assemble(&root, mmr_size, &items, &leaves) {
        Ok(w) => w,
        Err(e) => {
            return Err(e);
        },
    };
    Ok(Generated { leaf_count, mmr_size, positions, chosen, items, leaves, witnesses })
}

/// Every fixture that the generator returns passes the decoding of the
/// verifiers: its root is one digest long, its proof and its leaves decode
/// to what was encoded, and its leaf positions strictly ascend.
pub proof fn lemma_generated_decodes(g: Generated)
    requires
        g.well_formed(),
    ensures
        malformation(g.witnesses.root@, g.witnesses.proof@, g.witnesses.leaves@) is None,
        parse_proof(g.witnesses.proof@) == Some(
            (g.mmr_size, payloads(g.items@)),
        ),
        parse_leaves(g.witnesses.leaves@) == Some(records(g.leaves@)),
{
    lemma_parse_proof_wire(g.mmr_size, payloads(g.items@));
    lemma_parse_leaves_wire(records(g.leaves@));
    assert(positions_of(records(g.leaves@)) =~= positions_of(g.leaves@));
}

/// A candidate verifier, wired into a fixture: the hash of its binary, by
/// which a transaction input names it as its executable, and the binary
/// itself, attached as the matching dependency.
pub struct Verifier {
    pub code_hash: [u8; 32],
    pub binary: Vec<u8>,
}

/// Wires one verifier binary into a fixture.
pub fn bind(binary: Vec<u8>) -> (verifier: Verifier)
    ensures
        verifier.binary@ == binary@,
        verifier.code_hash@ == content_hash(binary@),
{
    let code_hash = blake2b_256(binary.as_slice());
    Verifier { code_hash, binary }
}

/// Puts the size of the MMR in front of a packed operand stream: the
/// flattened proof as a verifier loads it. The stream is taken as it is.
pub fn frame(mmr_size: u64, stream: &[u8]) -> (framed: Vec<u8>)
    ensures
        framed@ == le_bytes(mmr_size as nat, 8) + stream@,
{
    let mut framed: Vec<u8> = Vec::new();
    proof {
        lemma_pow256_widths();
    }
    push_le(&mut framed, mmr_size, 8);
    let ghost header = framed@;
    framed.extend_from_slice(stream);
    proof {
        assert(framed@ =~= header + stream@);
    }
    framed
}

/// The witnesses of a fixture in the order of their slots.
pub fn place(witnesses: Witnesses, compiled_proof: Vec<u8>) -> (slots: Vec<Vec<u8>>)
    ensures
        slots@.len() == 4,
        slots@[Slot::Root.index_of() as int]@ == witnesses.root@,
        slots@[Slot::BaselineProof.index_of() as int]@ == witnesses.proof@,
        slots@[Slot::Leaves.index_of() as int]@ == witnesses.leaves@,
        slots@[Slot::CompiledProof.index_of() as int]@ == compiled_proof@,
{
    let mut slots: Vec<Vec<u8>> = Vec::new();
    slots.push(witnesses.root);
    slots.push(witnesses.proof);
    slots.push(witnesses.leaves);
    slots.push(compiled_proof);
    slots
}

} // verus!
