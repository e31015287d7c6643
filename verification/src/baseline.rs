//! The borrowing strategy: every item is a slice of the witness buffer it
//! was decoded from, so nothing is copied and nothing outlives the buffer.
//! This is the strategy of the structural proof format, whose siblings are
//! walked as a tree.

use crate::driver::{action_in, exit_status, lemma_flip_differs, load_event, load_outcome,
    loaded_bytes, next_state, run, start, step, verdict_of, with_bit_flipped, Action, Event,
    Failure, LoadError, Mode, State, Verdict};
use crate::error::DecodeError;
use crate::format::{leaves_ascend, leaves_in, malformation, parse_items, parse_leaves,
    parse_proof, positions_of, proof_in, read_item, read_leaf, LeafView};
use crate::hash::{blake2b_pair, ckb_blake2b_256, same_bytes, HASH_LEN};
use crate::wire::Reader;
use vstd::prelude::*;
use vstd::slice::slice_subrange;

verus! {

/// A node value: a computed digest, or leaf bytes borrowed from a buffer.
#[derive(Clone, Debug, PartialEq)]
pub enum VariableBytes<'a> {
    Hash(Box<[u8; 32]>),
    Dynamic(&'a [u8]),
}

impl<'a> View for VariableBytes<'a> {
    type V = Seq<u8>;

    open spec fn view(&self) -> Seq<u8> {
        match self {
            VariableBytes::Hash(d) => d@,
            VariableBytes::Dynamic(d) => d@,
        }
    }
}

impl<'a> VariableBytes<'a> {
    /// The bytes of the item, whichever way they are held.
    pub fn as_bytes(&self) -> (out: &[u8])
        ensures
            out@ == self@,
    {
        match self {
            VariableBytes::Hash(d) => d.as_slice(),
            VariableBytes::Dynamic(d) => d,
        }
    }
}

/// The bytes of each item of a list.
pub open spec fn payloads(items: Seq<VariableBytes>) -> Seq<Seq<u8>> {
    items.map_values(|item: VariableBytes| item@)
}

/// The position and the value bytes of each leaf record of a list.
pub open spec fn records(leaves: Seq<(u64, VariableBytes)>) -> Seq<LeafView> {
    leaves.map_values(|leaf: (u64, VariableBytes)| (leaf.0, leaf.1@))
}

/// A structural proof: the size of the MMR, which fixes the shape of the
/// forest, and the siblings needed to walk each disclosed leaf to its peak
/// and to bag the peaks.
pub struct BaselineProof<'a> {
    pub mmr_size: u64,
    pub items: Vec<VariableBytes<'a>>,
}

/// Decodes the first `length` bytes of `buffer` as a structural proof: the
/// size of the MMR in eight bytes, then items until the bytes are used up.
/// Every declared length is checked against what is left before a byte of
/// payload is touched; the items borrow from `buffer`.
pub fn decode_proof<'a>(buffer: &'a [u8], length: usize) -> (decoded: Result<
    BaselineProof<'a>,
    DecodeError,
>)
    ensures
        match decoded {
            Ok(proof) => proof_in(buffer@, length as int) == Some(
                (proof.mmr_size, payloads(proof.items@)),
            ),
            Err(e) => e == DecodeError::UnexpectedEof && proof_in(buffer@, length as int) is None,
        },
{
    if length > buffer.len() {
        return Err(DecodeError::UnexpectedEof);
    }
    let data = slice_subrange(buffer, 0, length);
    let mut reader = Reader::new(data);
    let mmr_size: u64 = match reader.read_le(8) {
        Ok(v) => v,
        Err(e) => {
            return Err(e);
        },
    };
    let ghost body = reader.rest();
    let mut items: Vec<VariableBytes<'a>> = Vec::new();
    proof {
        assert(data@ =~= buffer@.take(length as int));
        assert(payloads(items@) =~= Seq::<Seq<u8>>::empty());
        if parse_items(body) is Some {
            assert(payloads(items@) + parse_items(body).unwrap() =~= parse_items(body).unwrap());
        }
    }
    while reader.remaining() > 0
        invariant
            8 <= length <= buffer.len(),
            body == buffer@.take(length as int).skip(8),
            parse_items(body) == match parse_items(reader.rest()) {
                None => None::<Seq<Seq<u8>>>,
                Some(tail) => Some(payloads(items@) + tail),
            },
        decreases reader.rest().len(),
    {
        let ghost before = payloads(items@);
        match read_item(&mut reader) {
            Ok(payload) => {
                let item = VariableBytes::Dynamic(payload);
                proof {
                    assert(payloads(items@.push(item)) =~= before.push(payload@));
                    if parse_items(reader.rest()) is Some {
                        let tail = parse_items(reader.rest()).unwrap();
                        assert(before + (seq![payload@] + tail) =~= before.push(payload@) + tail);
                    }
                }
                items.push(item);
            },
            Err(e) => {
                return Err(e);
            },
        }
    }
    proof {
        assert(reader.rest() =~= Seq::<u8>::empty());
        assert(payloads(items@) + Seq::<Seq<u8>>::empty() =~= payloads(items@));
    }
    Ok(BaselineProof { mmr_size, items })
}

/// Decodes the first `length` bytes of `buffer` as leaf records, each a
/// position in eight bytes followed by one item, until the bytes are used
/// up. The values borrow from `buffer`.
pub fn decode_leaves<'a>(buffer: &'a [u8], length: usize) -> (decoded: Result<
    Vec<(u64, VariableBytes<'a>)>,
    DecodeError,
>)
    ensures
        match decoded {
            Ok(leaves) => leaves_in(buffer@, length as int) == Some(records(leaves@)),
            Err(e) => e == DecodeError::UnexpectedEof && leaves_in(buffer@, length as int) is None,
        },
{
    if length > buffer.len() {
        return Err(DecodeError::UnexpectedEof);
    }
    let data = slice_subrange(buffer, 0, length);
    let mut reader = Reader::new(data);
    let mut leaves: Vec<(u64, VariableBytes<'a>)> = Vec::new();
    proof {
        assert(data@ =~= buffer@.take(length as int));
        assert(records(leaves@) =~= Seq::<LeafView>::empty());
        if parse_leaves(data@) is Some {
            assert(records(leaves@) + parse_leaves(data@).unwrap() =~= parse_leaves(
                data@,
            ).unwrap());
        }
    }
    while reader.remaining() > 0
        invariant
            length <= buffer.len(),
            data@ == buffer@.take(length as int),
            parse_leaves(data@) == match parse_leaves(reader.rest()) {
                None => None::<Seq<LeafView>>,
                Some(tail) => Some(records(leaves@) + tail),
            },
        decreases reader.rest().len(),
    {
        let ghost before = records(leaves@);
        match read_leaf(&mut reader) {
            Ok((position, value)) => {
                let item = VariableBytes::Dynamic(value);
                proof {
                    let leaf = (position, value@);
                    assert(records(leaves@.push((position, item))) =~= before.push(leaf));
                    if parse_leaves(reader.rest()) is Some {
                        let tail = parse_leaves(reader.rest()).unwrap();
                        assert(before + (seq![leaf] + tail) =~= before.push(leaf) + tail);
                    }
                }
                leaves.push((position, item));
            },
            Err(e) => {
                return Err(e);
            },
        }
    }
    proof {
        assert(reader.rest() =~= Seq::<u8>::empty());
        assert(records(leaves@) + Seq::<LeafView>::empty() =~= records(leaves@));
    }
    Ok(leaves)
}


/// Joins two nodes into their parent by hashing the left bytes followed by
/// the right bytes.
pub struct Blake2bHash<'a> {
    marker: core::marker::PhantomData<&'a [u8]>,
}

impl<'a> ckb_merkle_mountain_range::Merge for Blake2bHash<'a> {
    type Item = VariableBytes<'a>;

    /// The parent of `lhs` and `rhs`: a digest, always.
    fn merge(lhs: &VariableBytes<'a>, rhs: &VariableBytes<'a>) -> (parent: Result<
        VariableBytes<'a>,
        ckb_merkle_mountain_range::Error,
    >)
        ensures
            parent matches Ok(p) && p is Hash && p@ == ckb_blake2b_256(lhs@ + rhs@),
    {
        Ok(VariableBytes::Hash(Box::new(blake2b_pair(lhs.as_bytes(), rhs.as_bytes()))))
    }
}

/// The error with which the proof algebra of `ckb_merkle_mountain_range`
/// gives up. Nothing is known of a value but that it is one.
#[verifier::external_type_specification]
#[verifier::external_body]
pub struct ExMmrError(ckb_merkle_mountain_range::Error);

/// The root that the proof algebra of `ckb_merkle_mountain_range` computes
/// for an MMR of `mmr_size` nodes from the leaves at their positions and the
/// siblings in `proof`, nodes being joined by `ckb_blake2b_256` over left
/// bytes then right bytes; `None` where it computes none.
pub uninterp spec fn mmr_root(mmr_size: u64, proof: Seq<Seq<u8>>, leaves: Seq<LeafView>) -> Option<
    Seq<u8>,
>;

/// Walks the leaves up to their peaks and bags the peaks.
///
/// Trusted: the body hands the proof and the leaves to
/// `MerkleProof::calculate_root`, which joins nodes through
/// `Blake2bHash::merge` and nothing else, so that what it returns depends on
/// the bytes handed over alone. The contract names the root it returns, and
/// says that it returned none where it gave up. The call returns for every
/// input: positions are sorted and matched against the peaks of `mmr_size`
/// before any arithmetic is done on them.
#[verifier::external_body]
fn calculate_root<'a>(proof: BaselineProof<'a>, leaves: Vec<(u64, VariableBytes<'a>)>) -> (root:
    Result<VariableBytes<'a>, ckb_merkle_mountain_range::Error>)
    ensures
        match root {
            Ok(item) => mmr_root(proof.mmr_size, payloads(proof.items@), records(leaves@))
                == Some(item@),
            Err(_) => mmr_root(proof.mmr_size, payloads(proof.items@), records(leaves@)) is None,
        },
{
    ckb_merkle_mountain_range::MerkleProof::<VariableBytes<'a>, Blake2bHash<'a>>::new(
        proof.mmr_size,
        proof.items,
    ).calculate_root(leaves)
}

/// Judges a recomputed root, if there is one, against the supplied root,
/// byte for byte.
pub fn judge(computed: Option<&[u8]>, root: &[u8]) -> (verdict: Verdict)
    ensures
        verdict == verdict_of(
            match computed {
                Some(bytes) => Some(bytes@),
                None => None,
            },
            root@,
        ),
{
    match computed {
        None => Verdict::Unresolved,
        Some(bytes) => if same_bytes(bytes, root) {
            Verdict::Accepted
        } else {
            Verdict::Rejected
        },
    }
}

/// Recomputes the root from the leaves and the proof and judges it against
/// `root`.
pub fn verify<'a>(
    root: &[u8],
    proof: BaselineProof<'a>,
    leaves: Vec<(u64, VariableBytes<'a>)>,
) -> (verdict: Verdict)
    ensures
        verdict == verdict_of(
            mmr_root(proof.mmr_size, payloads(proof.items@), records(leaves@)),
            root@,
        ),
{
    match calculate_root(proof, leaves) {
        Ok(item) => judge(Some(item.as_bytes()), root),
        Err(_) => judge(None, root),
    }
}

/// The witnesses of a run, decoded.
pub struct Decoded<'a> {
    pub root: &'a [u8],
    pub proof: BaselineProof<'a>,
    pub leaves: Vec<(u64, VariableBytes<'a>)>,
}

impl<'a> Decoded<'a> {
    /// Whether this is what the three witnesses decode to.
    pub open spec fn decodes(&self, root: Seq<u8>, proof: Seq<u8>, leaves: Seq<u8>) -> bool {
        &&& malformation(root, proof, leaves) is None
        &&& self.root@ == root
        &&& parse_proof(proof) == Some((self.proof.mmr_size, payloads(self.proof.items@)))
        &&& parse_leaves(leaves) == Some(records(self.leaves@))
    }
}

/// Decodes the three witnesses of a run, or says what is wrong with them.
pub fn decode<'a>(root: &'a [u8], proof: &'a [u8], leaves: &'a [u8]) -> (decoded: Result<
    Decoded<'a>,
    DecodeError,
>)
    ensures
        match decoded {
            Ok(d) => d.decodes(root@, proof@, leaves@),
            Err(e) => malformation(root@, proof@, leaves@) == Some(e),
        },
{
    if root.len() != HASH_LEN {
        return Err(DecodeError::BadRootLength);
    }
    proof {
        assert(proof@.take(proof@.len() as int) =~= proof@);
        assert(leaves@.take(leaves@.len() as int) =~= leaves@);
    }
    let decoded_proof = match decode_proof(proof, proof.len()) {
        Ok(p) => p,
        Err(e) => {
            return Err(e);
        },
    };
    let decoded_leaves = match decode_leaves(leaves, leaves.len()) {
        Ok(l) => l,
        Err(e) => {
            return Err(e);
        },
    };
    let ascend = leaves_ascend(&decoded_leaves);
    proof {
        assert(positions_of(records(decoded_leaves@)) =~= positions_of(decoded_leaves@));
    }
    if !ascend {
        return Err(DecodeError::LeavesOutOfOrder);
    }
    Ok(Decoded { root, proof: decoded_proof, leaves: decoded_leaves })
}

/// Where a run of the structural verifier ends, given what each load
/// yielded: the bytes of the witness, or nothing.
pub open spec fn outcome(root: Option<Seq<u8>>, proof: Option<Seq<u8>>, leaves: Option<Seq<u8>>)
    -> State {
    if root is None || proof is None || leaves is None {
        State::Aborted(Failure::LoadError)
    } else if malformation(root.unwrap(), proof.unwrap(), leaves.unwrap()) is Some {
        State::Aborted(Failure::DecodeError)
    } else {
        let (mmr_size, items) = parse_proof(proof.unwrap()).unwrap();
        let records = parse_leaves(leaves.unwrap()).unwrap();
        match verdict_of(mmr_root(mmr_size, items, records), root.unwrap()) {
            Verdict::Accepted => State::Done,
            Verdict::Rejected => State::Aborted(Failure::ProofRejected),
            Verdict::Unresolved => State::Aborted(Failure::InternalAssertionFailure),
        }
    }
}

/// What is reported to the driver in the course of a run: how each load
/// went, then, where all went well, how the decoding went, then, where that
/// went well too, the verdict on the recomputed root.
pub open spec fn reported(root: Option<Seq<u8>>, proof: Option<Seq<u8>>, leaves: Option<Seq<u8>>)
    -> Seq<Event> {
    let loads = seq![load_outcome(root), load_outcome(proof), load_outcome(leaves)];
    if root is None || proof is None || leaves is None {
        loads
    } else if malformation(root.unwrap(), proof.unwrap(), leaves.unwrap()) is Some {
        loads.push(Event::Malformed)
    } else {
        let (mmr_size, items) = parse_proof(proof.unwrap()).unwrap();
        let records = parse_leaves(leaves.unwrap()).unwrap();
        loads.push(Event::Decoded).push(
            Event::Judged(verdict_of(mmr_root(mmr_size, items, records), root.unwrap())),
        )
    }
}

/// Where a run of the structural verifier ends is where the driver stands
/// once everything is reported to it, from the first load on.
pub proof fn lemma_outcome_is_a_run(
    root: Option<Seq<u8>>,
    proof: Option<Seq<u8>>,
    leaves: Option<Seq<u8>>,
)
    ensures
        outcome(root, proof, leaves) == run(
            Mode::Baseline,
            State::LoadRoot,
            reported(root, proof, leaves),
        ),
{
    reveal_with_fuel(run, 6);
    let events = reported(root, proof, leaves);
    let second = events.drop_first();
    let third = second.drop_first();
    let fourth = third.drop_first();
    let fifth = fourth.drop_first();
    assert(second[0] == events[1] && third[0] == events[2]);
    assert(events.len() > 3 ==> fourth[0] == events[3]);
    assert(events.len() > 4 ==> fifth[0] == events[4]);
}

/// A run ends in a rejected proof exactly when every witness was loaded
/// and is well formed, a root was recomputed, and that root is not the
/// supplied one. A malformed witness is never reported as a rejected proof,
/// nor a rejected proof as anything else.
pub proof fn lemma_rejection_is_a_root_mismatch(
    root: Option<Seq<u8>>,
    proof: Option<Seq<u8>>,
    leaves: Option<Seq<u8>>,
)
    ensures
        outcome(root, proof, leaves) == State::Aborted(Failure::ProofRejected) <==> {
            &&& root is Some
            &&& proof is Some
            &&& leaves is Some
            &&& malformation(root.unwrap(), proof.unwrap(), leaves.unwrap()) is None
            &&& mmr_root(
                parse_proof(proof.unwrap()).unwrap().0,
                parse_proof(proof.unwrap()).unwrap().1,
                parse_leaves(leaves.unwrap()).unwrap(),
            ) matches Some(recomputed)
            &&& recomputed != root.unwrap()
        },
{
}

/// Soundness against the root: where a run accepts, the same run on a root
/// with any one bit flipped ends in a rejected proof, not in an error.
pub proof fn lemma_flipped_root_is_rejected(
    root: Seq<u8>,
    proof: Seq<u8>,
    leaves: Seq<u8>,
    index: int,
    bit: u8,
)
    requires
        outcome(Some(root), Some(proof), Some(leaves)) is Done,
        0 <= index < root.len(),
        bit < 8,
    ensures
        outcome(Some(with_bit_flipped(root, index, bit)), Some(proof), Some(leaves))
            == State::Aborted(Failure::ProofRejected),
{
    lemma_flip_differs(root, index, bit);
}

/// Runs the structural verifier on what the loads of the root, the proof
/// and the leaves yielded, and returns the exit status: zero when the
/// recomputed root is the supplied one, and otherwise the status of the
/// first thing that failed.
pub fn program_entry<'a>(
    root: Result<&'a [u8], LoadError>,
    proof: Result<&'a [u8], LoadError>,
    leaves: Result<&'a [u8], LoadError>,
) -> (status: i8)
    ensures
        action_in(outcome(loaded_bytes(root), loaded_bytes(proof), loaded_bytes(leaves)))
            == Action::Exit(status),
        status == 0 <==> outcome(loaded_bytes(root), loaded_bytes(proof), loaded_bytes(leaves))
            is Done,
{
    let mode = Mode::Baseline;
    let mut state = start();
    state = step(mode, state, load_event(&root));
    state = step(mode, state, load_event(&proof));
    state = step(mode, state, load_event(&leaves));
    match (root, proof, leaves) {
        (Ok(root), Ok(proof), Ok(leaves)) => {
            match decode(root, proof, leaves) {
                Ok(decoded) => {
                    state = step(mode, state, Event::Decoded);
                    let verdict = verify(decoded.root, decoded.proof, decoded.leaves);
                    state = step(mode, state, Event::Judged(verdict));
                },
                Err(_) => {
                    state = step(mode, state, Event::Malformed);
                },
            }
        },
        _ => {},
    }
    exit_status(state)
}

} // verus!
