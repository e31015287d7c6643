//! The owning strategy: every item is copied out of the witness buffer, so
//! that nothing borrowed outlives the buffer. This is the strategy of the
//! flattened proof format, whose operands are unpacked one at a time.

use crate::driver::{action_in, ended, exit_status, load_event, loaded_bytes, next_state, start,
    step, Action, Event, Failure, LoadError, Mode, State, Verdict};
use crate::error::DecodeError;
use crate::format::{item_fits, item_wire, items_fit, items_wire, leaves_ascend, leaves_fit,
    leaves_in, leaves_wire, lemma_item_wire_len, lemma_item_wire_parse, lemma_items_wire_push,
    lemma_leaves_wire_push, malformation, parse_item, parse_items, parse_leaves, parse_proof,
    positions_of, proof_in, proof_wire, put_item, put_leaf, read_item, LeafView};
use crate::hash::{blake2b_pair, ckb_blake2b_256, HASH_LEN};
use crate::wire::{lemma_pow256_widths, push_le, read_le, Reader};
use vstd::prelude::*;
use vstd::slice::{slice_subrange, slice_to_vec};

verus! {

/// A node value that owns its bytes: a digest, or leaf bytes of any length.
#[derive(Clone, Debug, PartialEq)]
pub enum VariableBytes {
    Hash(Box<[u8; 32]>),
    Dynamic(Vec<u8>),
}

/// How an unpacked payload is told apart as a digest or as leaf bytes.
///
/// The wire format carries no tag. `ByLength` reads every payload of exactly
/// 32 bytes as a digest, so a leaf value of that length is held as one;
/// `Untagged` holds every payload as leaf bytes. The bytes of the item are
/// the same either way, and hashing and comparison look at the bytes only.
#[derive(Clone, Copy, Debug, PartialEq, Eq, Structural)]
pub enum Tagging {
    ByLength,
    Untagged,
}

impl View for VariableBytes {
    type V = Seq<u8>;

    open spec fn view(&self) -> Seq<u8> {
        match self {
            VariableBytes::Hash(d) => d@,
            VariableBytes::Dynamic(d) => d@,
        }
    }
}

/// The bytes of each item of a list.
pub open spec fn payloads(items: Seq<VariableBytes>) -> Seq<Seq<u8>> {
    items.map_values(|item: VariableBytes| item@)
}

/// The position and the value bytes of each leaf record of a list.
pub open spec fn records(leaves: Seq<(u64, VariableBytes)>) -> Seq<LeafView> {
    leaves.map_values(|leaf: (u64, VariableBytes)| (leaf.0, leaf.1@))
}

impl VariableBytes {
    /// The bytes of the item, whichever way they are held.
    pub fn as_bytes(&self) -> (out: &[u8])
        ensures
            out@ == self@,
    {
        match self {
            VariableBytes::Hash(d) => d.as_slice(),
            VariableBytes::Dynamic(d) => d.as_slice(),
        }
    }

    /// A copy of `payload`, held as `tagging` says.
    pub fn from_payload(payload: &[u8], tagging: Tagging) -> (item: VariableBytes)
        ensures
            item@ == payload@,
            item is Hash <==> tagging == Tagging::ByLength && payload@.len() == 32,
    {
        if payload.len() == HASH_LEN && matches!(tagging, Tagging::ByLength) {
            let mut digest: [u8; 32] = [0u8; 32];
            let mut i: usize = 0;
            while i < 32
                invariant
                    i <= 32,
                    payload@.len() == 32,
                    forall|k: int| 0 <= k < i ==> digest@[k] == payload@[k],
                decreases 32 - i,
            {
                digest[i] = payload[i];
                i = i + 1;
            }
            proof {
                assert(digest@ =~= payload@);
            }
            VariableBytes::Hash(Box::new(digest))
        } else {
            VariableBytes::Dynamic(slice_to_vec(payload))
        }
    }

    /// The item on the wire: its length in two bytes, then its bytes. Fails
    /// exactly when the item is longer than two bytes can declare.
    pub fn pack(&self) -> (packed: Result<Vec<u8>, DecodeError>)
        ensures
            match packed {
                Ok(out) => item_fits(self@) && out@ == item_wire(self@),
                Err(e) => e == DecodeError::ItemTooLarge && !item_fits(self@),
            },
    {
        let mut out: Vec<u8> = Vec::new();
        match put_item(&mut out, self.as_bytes()) {
            Ok(()) => {
                proof {
                    assert(Seq::<u8>::empty() + item_wire(self@) =~= item_wire(self@));
                }
                Ok(out)
            },
            Err(e) => Err(e),
        }
    }

    /// The first item of `data`, copied out, with the number of bytes it
    /// took. A payload of exactly 32 bytes is held as a digest.
    pub fn unpack(data: &[u8]) -> (unpacked: Result<(VariableBytes, usize), DecodeError>)
        ensures
            match unpacked {
                Ok((item, used)) => {
                    &&& used == 2 + item@.len()
                    &&& used <= data@.len()
                    &&& parse_item(data@) == Some((item@, data@.skip(used as int)))
                    &&& item is Hash <==> item@.len() == 32
                },
                Err(e) => e == DecodeError::UnexpectedEof && parse_item(data@) is None,
            },
    {
        VariableBytes::unpack_as(data, Tagging::ByLength)
    }

    /// The first item of `data`, copied out and held as `tagging` says, with
    /// the number of bytes it took.
    pub fn unpack_as(data: &[u8], tagging: Tagging) -> (unpacked: Result<
        (VariableBytes, usize),
        DecodeError,
    >)
        ensures
            match unpacked {
                Ok((item, used)) => {
                    &&& used == 2 + item@.len()
                    &&& used <= data@.len()
                    &&& parse_item(data@) == Some((item@, data@.skip(used as int)))
                    &&& item is Hash <==> tagging == Tagging::ByLength && item@.len() == 32
                },
                Err(e) => e == DecodeError::UnexpectedEof && parse_item(data@) is None,
            },
    {
        let mut reader = Reader::new(data);
        match read_item(&mut reader) {
            Ok(payload) => {
                proof {
                    lemma_item_wire_parse(data@);
                    lemma_item_wire_len(payload@);
                }
                let used: usize = 2 + payload.len();
                proof {
                    let rest = reader.rest();
                    assert(data@ == item_wire(payload@) + rest);
                    assert(data@.skip(used as int) =~= rest);
                }
                Ok((VariableBytes::from_payload(payload, tagging), used))
            },
            Err(e) => Err(e),
        }
    }
}

/// A flattened proof: the size of the MMR and the operands, in the order in
/// which evaluation draws them.
pub struct CompiledProof {
    pub mmr_size: u64,
    pub operands: Vec<VariableBytes>,
}

/// Whether every item of a list is held as `tagging` says.
pub open spec fn tagged(items: Seq<VariableBytes>, tagging: Tagging) -> bool {
    forall|i: int|
        0 <= i < items.len() ==> ((#[trigger] items[i]) is Hash <==> tagging == Tagging::ByLength
            && items[i]@.len() == 32)
}

/// Whether the value of every leaf record of a list is held as `tagging`
/// says.
pub open spec fn leaves_tagged(leaves: Seq<(u64, VariableBytes)>, tagging: Tagging) -> bool {
    forall|i: int|
        0 <= i < leaves.len() ==> ((#[trigger] leaves[i]).1 is Hash <==> tagging
            == Tagging::ByLength && leaves[i].1@.len() == 32)
}

/// Unpacks the items that fill `data`, front to back.
fn unpack_all(data: &[u8], tagging: Tagging) -> (items: Result<Vec<VariableBytes>, DecodeError>)
    ensures
        match items {
            Ok(v) => parse_items(data@) == Some(payloads(v@)) && tagged(v@, tagging),
            Err(e) => e == DecodeError::UnexpectedEof && parse_items(data@) is None,
        },
{
    let mut items: Vec<VariableBytes> = Vec::new();
    let mut at: usize = 0;
    proof {
        assert(data@.skip(0) =~= data@);
        assert(payloads(items@) =~= Seq::<Seq<u8>>::empty());
        if parse_items(data@) is Some {
            assert(payloads(items@) + parse_items(data@).unwrap() =~= parse_items(
                data@,
            ).unwrap());
        }
    }
    while at < data.len()
        invariant
            at <= data.len(),
            tagged(items@, tagging),
            parse_items(data@) == match parse_items(data@.skip(at as int)) {
                None => None::<Seq<Seq<u8>>>,
                Some(tail) => Some(payloads(items@) + tail),
            },
        decreases data.len() - at,
    {
        let behind = slice_subrange(data, at, data.len());
        proof {
            assert(behind@ =~= data@.skip(at as int));
        }
        match VariableBytes::unpack_as(behind, tagging) {
            Ok((item, used)) => {
                proof {
                    let tail_bytes = behind@.skip(used as int);
                    assert(tail_bytes =~= data@.skip(at + used));
                    let before = payloads(items@);
                    assert(payloads(items@.push(item)) =~= before.push(item@));
                    if parse_items(tail_bytes) is Some {
                        let tail = parse_items(tail_bytes).unwrap();
                        assert(before + (seq![item@] + tail) =~= before.push(item@) + tail);
                    }
                }
                items.push(item);
                at = at + used;
            },
            Err(e) => {
                return Err(e);
            },
        }
    }
    proof {
        assert(data@.skip(at as int) =~= Seq::<u8>::empty());
        assert(payloads(items@) + Seq::<Seq<u8>>::empty() =~= payloads(items@));
    }
    Ok(items)
}

/// Decodes the first `length` bytes of `buffer` as a flattened proof: the
/// size of the MMR in eight bytes, then operands until the bytes are used
/// up. Every declared length is checked against what is left before a byte
/// of payload is touched.
pub fn decode_proof(buffer: &[u8], length: usize, tagging: Tagging) -> (decoded: Result<
    CompiledProof,
    DecodeError,
>)
    ensures
        match decoded {
            Ok(proof) => {
                &&& proof_in(buffer@, length as int) == Some(
                    (proof.mmr_size, payloads(proof.operands@)),
                )
                &&& tagged(proof.operands@, tagging)
            },
            Err(e) => e == DecodeError::UnexpectedEof && proof_in(buffer@, length as int) is None,
        },
{
    if length > buffer.len() || length < 8 {
        return Err(DecodeError::UnexpectedEof);
    }
    let data = slice_subrange(buffer, 0, length);
    let mmr_size: u64 = read_le(data, 0, 8);
    let stream = slice_subrange(data, 8, length);
    proof {
        assert(data@ =~= buffer@.take(length as int));
        assert(data@.subrange(0, 8) =~= data@.take(8));
        assert(stream@ =~= data@.skip(8));
    }
    match unpack_all(stream, tagging) {
        Ok(operands) => Ok(CompiledProof { mmr_size, operands }),
        Err(e) => Err(e),
    }
}

/// Decodes the first `length` bytes of `buffer` as leaf records, each a
/// position in eight bytes followed by one item, until the bytes are used
/// up.
pub fn decode_leaves(buffer: &[u8], length: usize, tagging: Tagging) -> (decoded: Result<
    Vec<(u64, VariableBytes)>,
    DecodeError,
>)
    ensures
        match decoded {
            Ok(leaves) => {
                &&& leaves_in(buffer@, length as int) == Some(records(leaves@))
                &&& leaves_tagged(leaves@, tagging)
            },
            Err(e) => e == DecodeError::UnexpectedEof && leaves_in(buffer@, length as int) is None,
        },
{
    if length > buffer.len() {
        return Err(DecodeError::UnexpectedEof);
    }
    let data = slice_subrange(buffer, 0, length);
    let mut leaves: Vec<(u64, VariableBytes)> = Vec::new();
    let mut at: usize = 0;
    proof {
        assert(data@ =~= buffer@.take(length as int));
        assert(data@.skip(0) =~= data@);
        assert(records(leaves@) =~= Seq::<LeafView>::empty());
        if parse_leaves(data@) is Some {
            assert(records(leaves@) + parse_leaves(data@).unwrap() =~= parse_leaves(
                data@,
            ).unwrap());
        }
    }
    while at < length
        invariant
            at <= length == data.len(),
            length <= buffer.len(),
            data@ == buffer@.take(length as int),
            leaves_tagged(leaves@, tagging),
            parse_leaves(data@) == match parse_leaves(data@.skip(at as int)) {
                None => None::<Seq<LeafView>>,
                Some(tail) => Some(records(leaves@) + tail),
            },
        decreases length - at,
    {
        if length - at < 8 {
            return Err(DecodeError::UnexpectedEof);
        }
        let position: u64 = read_le(data, at, 8);
        let behind = slice_subrange(data, at + 8, length);
        proof {
            let here = data@.skip(at as int);
            assert(here.take(8) =~= data@.subrange(at as int, at + 8));
            assert(behind@ =~= here.skip(8));
        }
        match VariableBytes::unpack_as(behind, tagging) {
            Ok((value, used)) => {
                proof {
                    let tail_bytes = behind@.skip(used as int);
                    assert(tail_bytes =~= data@.skip(at + 8 + used));
                    let before = records(leaves@);
                    let leaf = (position, value@);
                    assert(records(leaves@.push((position, value))) =~= before.push(leaf));
                    if parse_leaves(tail_bytes) is Some {
                        let tail = parse_leaves(tail_bytes).unwrap();
                        assert(before + (seq![leaf] + tail) =~= before.push(leaf) + tail);
                    }
                }
                leaves.push((position, value));
                at = at + 8 + used;
            },
            Err(e) => {
                return Err(e);
            },
        }
    }
    proof {
        assert(data@.skip(at as int) =~= Seq::<u8>::empty());
        assert(records(leaves@) + Seq::<LeafView>::empty() =~= records(leaves@));
    }
    Ok(leaves)
}

/// Encodes a proof: the size of the MMR in eight bytes, then each item.
/// Fails exactly when an item is longer than two bytes can declare.
pub fn encode_proof(mmr_size: u64, items: &Vec<VariableBytes>) -> (encoded: Result<
    Vec<u8>,
    DecodeError,
>)
    ensures
        match encoded {
            Ok(out) => items_fit(payloads(items@)) && out@ == proof_wire(
                mmr_size,
                payloads(items@),
            ),
            Err(e) => e == DecodeError::ItemTooLarge && !items_fit(payloads(items@)),
        },
{
    let mut out: Vec<u8> = Vec::new();
    proof {
        lemma_pow256_widths();
    }
    push_le(&mut out, mmr_size, 8);
    let ghost header = out@;
    let mut i: usize = 0;
    proof {
        assert(payloads(items@).take(0) =~= Seq::<Seq<u8>>::empty());
        assert(header + items_wire(Seq::<Seq<u8>>::empty()) =~= header);
    }
    while i < items.len()
        invariant
            i <= items.len(),
            items_fit(payloads(items@).take(i as int)),
            out@ == header + items_wire(payloads(items@).take(i as int)),
        decreases items.len() - i,
    {
        let ghost done = payloads(items@).take(i as int);
        match put_item(&mut out, items[i].as_bytes()) {
            Ok(()) => {
                proof {
                    let next = payloads(items@).take(i + 1);
                    assert(next =~= done.push(items@[i as int]@));
                    lemma_items_wire_push(done, items@[i as int]@);
                    assert(out@ =~= header + items_wire(next));
                    assert forall|k: int| 0 <= k < next.len() implies item_fits(
                        #[trigger] next[k],
                    ) by {
                        if k < i {
                            assert(next[k] == done[k]);
                        }
                    }
                }
            },
            Err(e) => {
                proof {
                    assert(payloads(items@)[i as int] == items@[i as int]@);
                }
                return Err(e);
            },
        }
        i = i + 1;
    }
    proof {
        assert(payloads(items@).take(i as int) =~= payloads(items@));
    }
    Ok(out)
}

/// Encodes leaf records, each as its position in eight bytes followed by
/// its value as one item. Fails exactly when a value is longer than two
/// bytes can declare.
pub fn encode_leaves(leaves: &Vec<(u64, VariableBytes)>) -> (encoded: Result<
    Vec<u8>,
    DecodeError,
>)
    ensures
        match encoded {
            Ok(out) => leaves_fit(records(leaves@)) && out@ == leaves_wire(records(leaves@)),
            Err(e) => e == DecodeError::ItemTooLarge && !leaves_fit(records(leaves@)),
        },
{
    let mut out: Vec<u8> = Vec::new();
    let mut i: usize = 0;
    proof {
        assert(records(leaves@).take(0) =~= Seq::<LeafView>::empty());
    }
    while i < leaves.len()
        invariant
            i <= leaves.len(),
            leaves_fit(records(leaves@).take(i as int)),
            out@ == leaves_wire(records(leaves@).take(i as int)),
        decreases leaves.len() - i,
    {
        let ghost done = records(leaves@).take(i as int);
        let ghost leaf = (leaves@[i as int].0, leaves@[i as int].1@);
        match put_leaf(&mut out, leaves[i].0, leaves[i].1.as_bytes()) {
            Ok(()) => {
                proof {
                    let next = records(leaves@).take(i + 1);
                    assert(next =~= done.push(leaf));
                    lemma_leaves_wire_push(done, leaf);
                    assert forall|k: int| 0 <= k < next.len() implies item_fits(
                        (#[trigger] next[k]).1,
                    ) by {
                        if k < i {
                            assert(next[k] == done[k]);
                        }
                    }
                }
            },
            Err(e) => {
                proof {
                    assert(records(leaves@)[i as int] == leaf);
                }
                return Err(e);
            },
        }
        i = i + 1;
    }
    proof {
        assert(records(leaves@).take(i as int) =~= records(leaves@));
    }
    Ok(out)
}

/// Joins two nodes into their parent by hashing the left bytes followed by
/// the right bytes.
pub struct Blake2bHash;

impl ckb_merkle_mountain_range::Merge for Blake2bHash {
    type Item = VariableBytes;

    /// The parent of `lhs` and `rhs`: a digest, always.
    fn merge(lhs: &VariableBytes, rhs: &VariableBytes) -> (parent: Result<
        VariableBytes,
        ckb_merkle_mountain_range::Error,
    >)
        ensures
            parent matches Ok(p) && p is Hash && p@ == ckb_blake2b_256(lhs@ + rhs@),
    {
        Ok(VariableBytes::Hash(Box::new(blake2b_pair(lhs.as_bytes(), rhs.as_bytes()))))
    }
}

/// The witnesses of a run, decoded: what an evaluation of the operand
/// stream is handed.
pub struct Decoded {
    pub root: VariableBytes,
    pub proof: CompiledProof,
    pub leaves: Vec<(u64, VariableBytes)>,
}

impl Decoded {
    /// Whether this is what the three witnesses decode to under `tagging`.
    pub open spec fn decodes(
        &self,
        root: Seq<u8>,
        proof: Seq<u8>,
        leaves: Seq<u8>,
        tagging: Tagging,
    ) -> bool {
        &&& malformation(root, proof, leaves) is None
        &&& self.root@ == root
        &&& self.root is Hash
        &&& parse_proof(proof) == Some((self.proof.mmr_size, payloads(self.proof.operands@)))
        &&& tagged(self.proof.operands@, tagging)
        &&& parse_leaves(leaves) == Some(records(self.leaves@))
        &&& leaves_tagged(self.leaves@, tagging)
    }
}

/// The tagging cannot be observed in the bytes: whatever the same witnesses
/// decode to under one tagging and under the other holds the same bytes,
/// item by item.
pub proof fn lemma_tagging_keeps_bytes(
    by_length: Decoded,
    untagged: Decoded,
    root: Seq<u8>,
    proof: Seq<u8>,
    leaves: Seq<u8>,
)
    requires
        by_length.decodes(root, proof, leaves, Tagging::ByLength),
        untagged.decodes(root, proof, leaves, Tagging::Untagged),
    ensures
        by_length.root@ == untagged.root@,
        by_length.proof.mmr_size == untagged.proof.mmr_size,
        payloads(by_length.proof.operands@) == payloads(untagged.proof.operands@),
        records(by_length.leaves@) == records(untagged.leaves@),
{
}

/// The two strategies are one function of the bytes: what the borrowing
/// decoder and the owning decoder make of the same witnesses holds the
/// same root, the same size, the same items and the same leaf records.
pub proof fn lemma_strategies_agree(
    borrowed: crate::baseline::Decoded,
    owned: Decoded,
    root: Seq<u8>,
    proof: Seq<u8>,
    leaves: Seq<u8>,
    tagging: Tagging,
)
    requires
        borrowed.decodes(root, proof, leaves),
        owned.decodes(root, proof, leaves, tagging),
    ensures
        borrowed.root@ == owned.root@,
        borrowed.proof.mmr_size == owned.proof.mmr_size,
        crate::baseline::payloads(borrowed.proof.items@) == payloads(owned.proof.operands@),
        crate::baseline::records(borrowed.leaves@) == records(owned.leaves@),
{
}

/// Decodes the root, the flattened proof and the leaves of a run, or says
/// what is wrong with them. The root is held as a digest.
pub fn decode(root: &[u8], proof: &[u8], leaves: &[u8], tagging: Tagging) -> (decoded: Result<
    Decoded,
    DecodeError,
>)
    ensures
        match decoded {
            Ok(d) => d.decodes(root@, proof@, leaves@, tagging),
            Err(e) => malformation(root@, proof@, leaves@) == Some(e),
        },
{
    if root.len() != HASH_LEN {
        return Err(DecodeError::BadRootLength);
    }
    proof {
        assert(proof@.take(proof@.len() as int) =~= proof@);
        assert(leaves@.take(leaves@.len() as int) =~= leaves@);
    }
    let decoded_proof = match decode_proof(proof, proof.len(), tagging) {
        Ok(p) => p,
        Err(e) => {
            return Err(e);
        },
    };
    let decoded_leaves = match decode_leaves(leaves, leaves.len(), tagging) {
        Ok(l) => l,
        Err(e) => {
            return Err(e);
        },
    };
    let ascend = leaves_ascend(&decoded_leaves);
    proof {
        assert(positions_of(records(decoded_leaves@)) =~= positions_of(decoded_leaves@));
    }
    if !ascend {
        return Err(DecodeError::LeavesOutOfOrder);
    }
    Ok(
        Decoded {
            root: VariableBytes::from_payload(root, Tagging::ByLength),
            proof: decoded_proof,
            leaves: decoded_leaves,
        },
    )
}

/// Where a run of the flattened verifier stands once everything is loaded
/// and decoded, given what each load yielded: `Verify` when an evaluation
/// is due, and otherwise the failure that ended the run.
pub open spec fn prepared(
    root: Option<Seq<u8>>,
    proof: Option<Seq<u8>>,
    leaves: Option<Seq<u8>>,
    compiled_proof: Option<Seq<u8>>,
) -> State {
    if root is None || proof is None || leaves is None || compiled_proof is None {
        State::Aborted(Failure::LoadError)
    } else if malformation(root.unwrap(), compiled_proof.unwrap(), leaves.unwrap()) is Some {
        State::Aborted(Failure::DecodeError)
    } else {
        State::Verify
    }
}

/// The verdict that an evaluation reports: whether the stack was reduced to
/// one item and that item is the root, or nothing when it was not reduced
/// to one item.
pub open spec fn verdict_from(evaluated: Option<bool>) -> Verdict {
    match evaluated {
        Some(true) => Verdict::Accepted,
        Some(false) => Verdict::Rejected,
        None => Verdict::Unresolved,
    }
}

/// Takes a run of the flattened verifier through its loads and its
/// decoding. Returns the state reached and, when an evaluation is due, what
/// to evaluate. The structural proof is loaded like the other witnesses and
/// not decoded.
pub fn prepare(
    root: Result<&[u8], LoadError>,
    proof: Result<&[u8], LoadError>,
    leaves: Result<&[u8], LoadError>,
    compiled_proof: Result<&[u8], LoadError>,
    tagging: Tagging,
) -> (run: (State, Option<Decoded>))
    ensures
        run.0 == prepared(
            loaded_bytes(root),
            loaded_bytes(proof),
            loaded_bytes(leaves),
            loaded_bytes(compiled_proof),
        ),
        run.0 is Verify <==> run.1 is Some,
        run.1 matches Some(d) ==> d.decodes(
            loaded_bytes(root).unwrap(),
            loaded_bytes(compiled_proof).unwrap(),
            loaded_bytes(leaves).unwrap(),
            tagging,
        ),
{
    let mode = Mode::Compiled;
    let mut state = start();
    state = step(mode, state, load_event(&root));
    state = step(mode, state, load_event(&proof));
    state = step(mode, state, load_event(&leaves));
    state = step(mode, state, load_event(&compiled_proof));
    match (root, proof, leaves, compiled_proof) {
        (Ok(root), Ok(_), Ok(leaves), Ok(compiled_proof)) => {
            match decode(root, compiled_proof, leaves, tagging) {
                Ok(decoded) => {
                    state = step(mode, state, Event::Decoded);
                    (state, Some(decoded))
                },
                Err(_) => {
                    state = step(mode, state, Event::Malformed);
                    (state, None)
                },
            }
        },
        _ => (state, None),
    }
}

/// Ends a run: from `Verify`, on what the evaluation reported; from a state
/// in which the run had ended already, with the status of that state.
pub fn conclude(state: State, evaluated: Option<bool>) -> (status: i8)
    ensures
        state is Verify ==> action_in(
            next_state(Mode::Compiled, state, Event::Judged(verdict_from(evaluated))),
        ) == Action::Exit(status),
        ended(state) ==> action_in(state) == Action::Exit(status),
        status == 0 <==> state is Done || (state is Verify && evaluated == Some(true)),
{
    let verdict = match evaluated {
        Some(true) => Verdict::Accepted,
        Some(false) => Verdict::Rejected,
        None => Verdict::Unresolved,
    };
    exit_status(step(Mode::Compiled, state, Event::Judged(verdict)))
}

/// Runs the flattened verifier on what the loads yielded, and returns the
/// exit status. The operand stream is evaluated by `evaluate`, which is
/// called once, and only when every witness was loaded and is well formed;
/// the status is zero exactly when it then reports the root.
pub fn program_entry<F: FnOnce(Decoded) -> Option<bool>>(
    root: Result<&[u8], LoadError>,
    proof: Result<&[u8], LoadError>,
    leaves: Result<&[u8], LoadError>,
    compiled_proof: Result<&[u8], LoadError>,
    tagging: Tagging,
    evaluate: F,
) -> (status: i8)
    requires
        forall|input: Decoded|
            input.decodes(
                loaded_bytes(root).unwrap(),
                loaded_bytes(compiled_proof).unwrap(),
                loaded_bytes(leaves).unwrap(),
                tagging,
            ) ==> call_requires(evaluate, (input,)),
    ensures
        match prepared(
            loaded_bytes(root),
            loaded_bytes(proof),
            loaded_bytes(leaves),
            loaded_bytes(compiled_proof),
        ) {
            State::Verify => exists|input: Decoded, evaluated: Option<bool>|
                {
                    &&& input.decodes(
                        loaded_bytes(root).unwrap(),
                        loaded_bytes(compiled_proof).unwrap(),
                        loaded_bytes(leaves).unwrap(),
                        tagging,
                    )
                    &&& call_ensures(evaluate, (input,), evaluated)
                    &&& action_in(
                        next_state(
                            Mode::Compiled,
                            State::Verify,
                            Event::Judged(verdict_from(evaluated)),
                        ),
                    ) == Action::Exit(status)
                },
            ended => action_in(ended) == Action::Exit(status),
        },
{
    let (state, decoded) = prepare(root, proof, leaves, compiled_proof, tagging);
    match decoded {
        Some(input) => {
            let evaluated = evaluate(input);
            conclude(state, evaluated)
        },
        None => conclude(state, None),
    }
}

} // verus!
