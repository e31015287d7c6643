//! The wire formats, as functions on byte sequences, and the laws that make
//! decoding the inverse of encoding.
//!
//! An item is a two-byte little-endian length followed by that many payload
//! bytes. A proof is an eight-byte little-endian MMR size followed by items.
//! A leaf record is an eight-byte little-endian position followed by one
//! item; a leaves buffer is a run of leaf records.

use crate::error::DecodeError;
use crate::hash::HASH_LEN;
use crate::wire::{le_bytes, le_value, lemma_le_bytes_len, lemma_le_bytes_of_value,
    lemma_le_value_bound, lemma_le_value_of_bytes, lemma_pow256_widths, push_le, Reader,
    MAX_ITEM_LEN};
use vstd::prelude::*;

verus! {

/// A leaf record as a plain value: its position and the bytes of its value.
pub type LeafView = (u64, Seq<u8>);

/// Whether a payload is short enough for its length to be declared.
pub open spec fn item_fits(payload: Seq<u8>) -> bool {
    payload.len() <= MAX_ITEM_LEN
}

/// Whether every payload of `items` can be declared.
pub open spec fn items_fit(items: Seq<Seq<u8>>) -> bool {
    forall|i: int| 0 <= i < items.len() ==> item_fits(#[trigger] items[i])
}

/// Whether the value of every leaf record can be declared.
pub open spec fn leaves_fit(leaves: Seq<LeafView>) -> bool {
    forall|i: int| 0 <= i < leaves.len() ==> item_fits((#[trigger] leaves[i]).1)
}

/// Whether the numbers of a list strictly ascend.
pub open spec fn ascending(positions: Seq<u64>) -> bool {
    forall|i: int, j: int|
        0 <= i < j < positions.len() ==> #[trigger] positions[i] < #[trigger] positions[j]
}

/// The positions of a list of leaf records whose values are held in any
/// way.
pub open spec fn positions_of<T>(leaves: Seq<(u64, T)>) -> Seq<u64> {
    leaves.map_values(|leaf: (u64, T)| leaf.0)
}

/// Whether positions strictly ascend from one record to the next.
pub open spec fn strictly_ascending(leaves: Seq<LeafView>) -> bool {
    ascending(positions_of(leaves))
}

/// The bytes of one item.
pub open spec fn item_wire(payload: Seq<u8>) -> Seq<u8> {
    le_bytes(payload.len(), 2) + payload
}

/// The first item of `data` and the bytes behind it; `None` when `data` is
/// too short for the length field or for the payload that it declares.
pub open spec fn parse_item(data: Seq<u8>) -> Option<(Seq<u8>, Seq<u8>)> {
    if data.len() < 2 {
        None
    } else {
        let end = 2 + le_value(data.take(2)) as int;
        if data.len() < end {
            None
        } else {
            Some((data.subrange(2, end), data.skip(end)))
        }
    }
}

/// The bytes of a run of items.
pub open spec fn items_wire(items: Seq<Seq<u8>>) -> Seq<u8>
    decreases items.len(),
{
    if items.len() == 0 {
        Seq::empty()
    } else {
        item_wire(items[0]) + items_wire(items.drop_first())
    }
}

/// The items that `data` consists of; `None` unless `data` is a run of
/// whole items with nothing left over.
pub open spec fn parse_items(data: Seq<u8>) -> Option<Seq<Seq<u8>>>
    decreases data.len(),
{
    if data.len() == 0 {
        Some(Seq::empty())
    } else {
        match parse_item(data) {
            None => None,
            Some((payload, rest)) => match parse_items(rest) {
                None => None,
                Some(tail) => Some(seq![payload] + tail),
            },
        }
    }
}

/// The bytes of a proof.
pub open spec fn proof_wire(mmr_size: u64, items: Seq<Seq<u8>>) -> Seq<u8> {
    le_bytes(mmr_size as nat, 8) + items_wire(items)
}

/// The MMR size and the items of a proof; `None` when the header is cut
/// short or the rest is not a run of whole items.
pub open spec fn parse_proof(data: Seq<u8>) -> Option<(u64, Seq<Seq<u8>>)> {
    if data.len() < 8 {
        None
    } else {
        match parse_items(data.skip(8)) {
            None => None,
            Some(items) => Some((le_value(data.take(8)) as u64, items)),
        }
    }
}

/// The bytes of one leaf record.
pub open spec fn leaf_wire(leaf: LeafView) -> Seq<u8> {
    le_bytes(leaf.0 as nat, 8) + item_wire(leaf.1)
}

/// The first leaf record of `data` and the bytes behind it.
pub open spec fn parse_leaf(data: Seq<u8>) -> Option<(LeafView, Seq<u8>)> {
    if data.len() < 8 {
        None
    } else {
        match parse_item(data.skip(8)) {
            None => None,
            Some((value, rest)) => Some(((le_value(data.take(8)) as u64, value), rest)),
        }
    }
}

/// The bytes of a run of leaf records.
pub open spec fn leaves_wire(leaves: Seq<LeafView>) -> Seq<u8>
    decreases leaves.len(),
{
    if leaves.len() == 0 {
        Seq::empty()
    } else {
        leaf_wire(leaves[0]) + leaves_wire(leaves.drop_first())
    }
}

/// The leaf records that `data` consists of; `None` unless `data` is a run
/// of whole records with nothing left over.
pub open spec fn parse_leaves(data: Seq<u8>) -> Option<Seq<LeafView>>
    decreases data.len(),
{
    if data.len() == 0 {
        Some(Seq::empty())
    } else {
        match parse_leaf(data) {
            None => None,
            Some((leaf, rest)) => match parse_leaves(rest) {
                None => None,
                Some(tail) => Some(seq![leaf] + tail),
            },
        }
    }
}

/// What a buffer of which only the first `length` bytes were loaded holds
/// as a proof; `None` also when the buffer is shorter than `length`.
pub open spec fn proof_in(buffer: Seq<u8>, length: int) -> Option<(u64, Seq<Seq<u8>>)> {
    if 0 <= length <= buffer.len() {
        parse_proof(buffer.take(length))
    } else {
        None
    }
}

/// What a buffer of which only the first `length` bytes were loaded holds
/// as leaf records; `None` also when the buffer is shorter than `length`.
pub open spec fn leaves_in(buffer: Seq<u8>, length: int) -> Option<Seq<LeafView>> {
    if 0 <= length <= buffer.len() {
        parse_leaves(buffer.take(length))
    } else {
        None
    }
}

/// What is wrong with the witnesses, if anything: the first of a root that
/// is not one digest long, a proof or leaves that are no run of whole
/// items, and leaf positions that do not strictly ascend.
pub open spec fn malformation(root: Seq<u8>, proof: Seq<u8>, leaves: Seq<u8>) -> Option<
    DecodeError,
> {
    if root.len() != HASH_LEN {
        Some(DecodeError::BadRootLength)
    } else if parse_proof(proof) is None || parse_leaves(leaves) is None {
        Some(DecodeError::UnexpectedEof)
    } else if !strictly_ascending(parse_leaves(leaves).unwrap()) {
        Some(DecodeError::LeavesOutOfOrder)
    } else {
        None
    }
}

/// An item is two bytes longer than its payload.
pub proof fn lemma_item_wire_len(payload: Seq<u8>)
    ensures
        item_wire(payload).len() == 2 + payload.len(),
{
    lemma_le_bytes_len(payload.len(), 2);
}

/// Round trip of one item: an encoded payload that fits, followed by any
/// bytes, decodes to the payload and leaves exactly those bytes.
pub proof fn lemma_parse_item_wire(payload: Seq<u8>, behind: Seq<u8>)
    requires
        item_fits(payload),
    ensures
        parse_item(item_wire(payload) + behind) == Some((payload, behind)),
{
    let data = item_wire(payload) + behind;
    lemma_le_bytes_len(payload.len(), 2);
    lemma_pow256_widths();
    lemma_le_value_of_bytes(payload.len(), 2);
    assert(data.take(2) =~= le_bytes(payload.len(), 2));
    assert(data.subrange(2, 2 + payload.len() as int) =~= payload);
    assert(data.skip(2 + payload.len() as int) =~= behind);
}

/// What decoding accepts as an item is the encoding of its payload: the
/// bytes consumed are `item_wire` of the payload, and the payload fits.
pub proof fn lemma_item_wire_parse(data: Seq<u8>)
    requires
        parse_item(data) is Some,
    ensures
        item_fits(parse_item(data).unwrap().0),
        data == item_wire(parse_item(data).unwrap().0) + parse_item(data).unwrap().1,
{
    let (payload, rest) = parse_item(data).unwrap();
    let head = data.take(2);
    lemma_le_value_bound(head);
    lemma_pow256_widths();
    lemma_le_bytes_of_value(head);
    assert(data =~= head + payload + rest);
}

/// Decoding a run of items goes item by item.
pub proof fn lemma_parse_items_step(payload: Seq<u8>, behind: Seq<u8>)
    requires
        item_fits(payload),
    ensures
        parse_items(item_wire(payload) + behind) == match parse_items(behind) {
            None => None::<Seq<Seq<u8>>>,
            Some(tail) => Some(seq![payload] + tail),
        },
{
    lemma_parse_item_wire(payload, behind);
    lemma_item_wire_len(payload);
}

/// Encoding a run of items goes item by item, also from the back.
pub proof fn lemma_items_wire_push(items: Seq<Seq<u8>>, payload: Seq<u8>)
    ensures
        items_wire(items.push(payload)) == items_wire(items) + item_wire(payload),
    decreases items.len(),
{
    if items.len() == 0 {
        let single = items.push(payload);
        assert(single.drop_first() =~= Seq::<Seq<u8>>::empty());
        assert(items_wire(single.drop_first()) =~= Seq::<u8>::empty());
        assert(items_wire(single) =~= item_wire(payload));
        assert(items_wire(items) + item_wire(payload) =~= item_wire(payload));
    } else {
        lemma_items_wire_push(items.drop_first(), payload);
        assert(items.push(payload).drop_first() =~= items.drop_first().push(payload));
        assert(items_wire(items.push(payload)) =~= items_wire(items) + item_wire(payload));
    }
}

/// Round trip of a run of items: what was encoded is what decoding returns.
pub proof fn lemma_parse_items_wire(items: Seq<Seq<u8>>)
    requires
        items_fit(items),
    ensures
        parse_items(items_wire(items)) == Some(items),
    decreases items.len(),
{
    if items.len() > 0 {
        let tail = items.drop_first();
        assert(items_fit(tail)) by {
            assert forall|i: int| 0 <= i < tail.len() implies item_fits(#[trigger] tail[i]) by {
                assert(tail[i] == items[i + 1]);
            }
        }
        lemma_parse_items_wire(tail);
        lemma_parse_items_step(items[0], items_wire(tail));
        assert(seq![items[0]] + tail =~= items);
    } else {
        assert(items =~= Seq::<Seq<u8>>::empty());
    }
}

/// What decoding accepts as a run of items is the encoding of those items,
/// so no two buffers decode to the same items and every byte is accounted
/// for.
pub proof fn lemma_items_wire_parse(data: Seq<u8>)
    requires
        parse_items(data) is Some,
    ensures
        items_fit(parse_items(data).unwrap()),
        items_wire(parse_items(data).unwrap()) == data,
    decreases data.len(),
{
    if data.len() > 0 {
        let (payload, rest) = parse_item(data).unwrap();
        lemma_item_wire_parse(data);
        lemma_items_wire_parse(rest);
        let tail = parse_items(rest).unwrap();
        let items = seq![payload] + tail;
        assert(items.drop_first() =~= tail);
        assert(items[0] == payload);
        assert forall|i: int| 0 <= i < items.len() implies item_fits(#[trigger] items[i]) by {
            if i > 0 {
                assert(items[i] == tail[i - 1]);
            }
        }
    } else {
        assert(data =~= Seq::<u8>::empty());
    }
}

/// Round trip of a proof.
pub proof fn lemma_parse_proof_wire(mmr_size: u64, items: Seq<Seq<u8>>)
    requires
        items_fit(items),
    ensures
        parse_proof(proof_wire(mmr_size, items)) == Some((mmr_size, items)),
{
    let data = proof_wire(mmr_size, items);
    lemma_le_bytes_len(mmr_size as nat, 8);
    lemma_pow256_widths();
    lemma_le_value_of_bytes(mmr_size as nat, 8);
    lemma_parse_items_wire(items);
    assert(data.take(8) =~= le_bytes(mmr_size as nat, 8));
    assert(data.skip(8) =~= items_wire(items));
}

/// What decoding accepts as a proof is the encoding of what it returns.
pub proof fn lemma_proof_wire_parse(data: Seq<u8>)
    requires
        parse_proof(data) is Some,
    ensures
        items_fit(parse_proof(data).unwrap().1),
        proof_wire(parse_proof(data).unwrap().0, parse_proof(data).unwrap().1) == data,
{
    let head = data.take(8);
    lemma_items_wire_parse(data.skip(8));
    lemma_le_value_bound(head);
    lemma_pow256_widths();
    lemma_le_bytes_of_value(head);
    assert(data =~= head + data.skip(8));
}

/// Round trip of one leaf record.
pub proof fn lemma_parse_leaf_wire(leaf: LeafView, behind: Seq<u8>)
    requires
        item_fits(leaf.1),
    ensures
        parse_leaf(leaf_wire(leaf) + behind) == Some((leaf, behind)),
{
    let data = leaf_wire(leaf) + behind;
    lemma_le_bytes_len(leaf.0 as nat, 8);
    lemma_pow256_widths();
    lemma_le_value_of_bytes(leaf.0 as nat, 8);
    lemma_parse_item_wire(leaf.1, behind);
    assert(data.take(8) =~= le_bytes(leaf.0 as nat, 8));
    assert(data.skip(8) =~= item_wire(leaf.1) + behind);
}

/// What decoding accepts as a leaf record is the encoding of that record.
pub proof fn lemma_leaf_wire_parse(data: Seq<u8>)
    requires
        parse_leaf(data) is Some,
    ensures
        item_fits(parse_leaf(data).unwrap().0.1),
        data == leaf_wire(parse_leaf(data).unwrap().0) + parse_leaf(data).unwrap().1,
{
    let head = data.take(8);
    let body = data.skip(8);
    let (leaf, rest) = parse_leaf(data).unwrap();
    lemma_item_wire_parse(body);
    assert(body == item_wire(leaf.1) + rest);
    assert(le_bytes(leaf.0 as nat, 8) == head) by {
        lemma_le_value_bound(head);
        lemma_pow256_widths();
        lemma_le_bytes_of_value(head);
    }
    assert(data =~= head + body);
    assert(head + (item_wire(leaf.1) + rest) =~= (head + item_wire(leaf.1)) + rest);
}

/// A leaf record is ten bytes longer than its value.
pub proof fn lemma_leaf_wire_len(leaf: LeafView)
    ensures
        leaf_wire(leaf).len() == 10 + leaf.1.len(),
{
    lemma_le_bytes_len(leaf.0 as nat, 8);
    lemma_item_wire_len(leaf.1);
}

/// Decoding a run of leaf records goes record by record.
pub proof fn lemma_parse_leaves_step(leaf: LeafView, behind: Seq<u8>)
    requires
        item_fits(leaf.1),
    ensures
        parse_leaves(leaf_wire(leaf) + behind) == match parse_leaves(behind) {
            None => None::<Seq<LeafView>>,
            Some(tail) => Some(seq![leaf] + tail),
        },
{
    lemma_parse_leaf_wire(leaf, behind);
    lemma_leaf_wire_len(leaf);
}

/// Encoding a run of leaf records goes record by record, also from the back.
pub proof fn lemma_leaves_wire_push(leaves: Seq<LeafView>, leaf: LeafView)
    ensures
        leaves_wire(leaves.push(leaf)) == leaves_wire(leaves) + leaf_wire(leaf),
    decreases leaves.len(),
{
    if leaves.len() == 0 {
        let single = leaves.push(leaf);
        assert(single.drop_first() =~= Seq::<LeafView>::empty());
        assert(leaves_wire(single.drop_first()) =~= Seq::<u8>::empty());
        assert(leaves_wire(single) =~= leaf_wire(leaf));
        assert(leaves_wire(leaves) + leaf_wire(leaf) =~= leaf_wire(leaf));
    } else {
        lemma_leaves_wire_push(leaves.drop_first(), leaf);
        assert(leaves.push(leaf).drop_first() =~= leaves.drop_first().push(leaf));
        assert(leaves_wire(leaves.push(leaf)) =~= leaves_wire(leaves) + leaf_wire(leaf));
    }
}

/// Round trip of a run of leaf records.
pub proof fn lemma_parse_leaves_wire(leaves: Seq<LeafView>)
    requires
        leaves_fit(leaves),
    ensures
        parse_leaves(leaves_wire(leaves)) == Some(leaves),
    decreases leaves.len(),
{
    if leaves.len() > 0 {
        let tail = leaves.drop_first();
        assert(leaves_fit(tail)) by {
            assert forall|i: int| 0 <= i < tail.len() implies item_fits((#[trigger] tail[i]).1) by {
                assert(tail[i] == leaves[i + 1]);
            }
        }
        lemma_parse_leaves_wire(tail);
        lemma_parse_leaves_step(leaves[0], leaves_wire(tail));
        assert(seq![leaves[0]] + tail =~= leaves);
    } else {
        assert(leaves =~= Seq::<LeafView>::empty());
    }
}

/// What decoding accepts as a run of leaf records is the encoding of those
/// records.
pub proof fn lemma_leaves_wire_parse(data: Seq<u8>)
    requires
        parse_leaves(data) is Some,
    ensures
        leaves_fit(parse_leaves(data).unwrap()),
        leaves_wire(parse_leaves(data).unwrap()) == data,
    decreases data.len(),
{
    if data.len() > 0 {
        let (leaf, rest) = parse_leaf(data).unwrap();
        lemma_leaf_wire_parse(data);
        lemma_leaves_wire_parse(rest);
        let tail = parse_leaves(rest).unwrap();
        let leaves = seq![leaf] + tail;
        assert(leaves.drop_first() =~= tail);
        assert(leaves[0] == leaf);
        assert forall|i: int| 0 <= i < leaves.len() implies item_fits((#[trigger] leaves[i]).1) by {
            if i > 0 {
                assert(leaves[i] == tail[i - 1]);
            }
        }
    } else {
        assert(data =~= Seq::<u8>::empty());
    }
}

/// Bounds safety for items: whole items followed by a length field that
/// declares more bytes than follow it are never accepted.
pub proof fn lemma_overlong_item_refused(items: Seq<Seq<u8>>, declared: u16, short: Seq<u8>)
    requires
        items_fit(items),
        short.len() < declared,
    ensures
        parse_items(items_wire(items) + (le_bytes(declared as nat, 2) + short)) is None,
    decreases items.len(),
{
    let cut = le_bytes(declared as nat, 2) + short;
    if items.len() == 0 {
        let data = items_wire(items) + cut;
        assert(data =~= cut);
        lemma_le_bytes_len(declared as nat, 2);
        lemma_pow256_widths();
        lemma_le_value_of_bytes(declared as nat, 2);
        assert(cut.take(2) =~= le_bytes(declared as nat, 2));
    } else {
        let tail = items.drop_first();
        assert(items_fit(tail)) by {
            assert forall|i: int| 0 <= i < tail.len() implies item_fits(#[trigger] tail[i]) by {
                assert(tail[i] == items[i + 1]);
            }
        }
        lemma_overlong_item_refused(tail, declared, short);
        lemma_parse_items_step(items[0], items_wire(tail) + cut);
        assert(items_wire(items) + cut =~= item_wire(items[0]) + (items_wire(tail) + cut));
    }
}

/// Bounds safety for proofs: a proof whose last length field declares more
/// bytes than follow it is never accepted.
pub proof fn lemma_overlong_proof_refused(
    mmr_size: u64,
    items: Seq<Seq<u8>>,
    declared: u16,
    short: Seq<u8>,
)
    requires
        items_fit(items),
        short.len() < declared,
    ensures
        parse_proof(proof_wire(mmr_size, items) + (le_bytes(declared as nat, 2) + short)) is None,
{
    let cut = le_bytes(declared as nat, 2) + short;
    let data = proof_wire(mmr_size, items) + cut;
    lemma_le_bytes_len(mmr_size as nat, 8);
    lemma_overlong_item_refused(items, declared, short);
    assert(data.skip(8) =~= items_wire(items) + cut);
}

/// Bounds safety for leaf records: whole records followed by a record whose
/// length field declares more bytes than follow it are never accepted.
pub proof fn lemma_overlong_leaf_refused(
    leaves: Seq<LeafView>,
    position: u64,
    declared: u16,
    short: Seq<u8>,
)
    requires
        leaves_fit(leaves),
        short.len() < declared,
    ensures
        parse_leaves(
            leaves_wire(leaves) + (le_bytes(position as nat, 8) + (le_bytes(declared as nat, 2)
                + short)),
        ) is None,
    decreases leaves.len(),
{
    let cut = le_bytes(position as nat, 8) + (le_bytes(declared as nat, 2) + short);
    if leaves.len() == 0 {
        let data = leaves_wire(leaves) + cut;
        assert(data =~= cut);
        lemma_le_bytes_len(position as nat, 8);
        lemma_le_bytes_len(declared as nat, 2);
        lemma_pow256_widths();
        lemma_le_value_of_bytes(declared as nat, 2);
        let body = cut.skip(8);
        assert(body =~= le_bytes(declared as nat, 2) + short);
        assert(body.take(2) =~= le_bytes(declared as nat, 2));
    } else {
        let tail = leaves.drop_first();
        assert(leaves_fit(tail)) by {
            assert forall|i: int| 0 <= i < tail.len() implies item_fits((#[trigger] tail[i]).1) by {
                assert(tail[i] == leaves[i + 1]);
            }
        }
        lemma_overlong_leaf_refused(tail, position, declared, short);
        lemma_parse_leaves_step(leaves[0], leaves_wire(tail) + cut);
        assert(leaves_wire(leaves) + cut =~= leaf_wire(leaves[0]) + (leaves_wire(tail) + cut));
    }
}

/// Whether the positions of `leaves` strictly ascend.
pub fn leaves_ascend<T>(leaves: &Vec<(u64, T)>) -> (yes: bool)
    ensures
        yes == ascending(positions_of(leaves@)),
{
    let ghost positions = positions_of(leaves@);
    let mut i: usize = 1;
    while i < leaves.len()
        invariant
            1 <= i,
            positions == positions_of(leaves@),
            forall|a: int, b: int|
                0 <= a < b < i && b < positions.len() ==> #[trigger] positions[a]
                    < #[trigger] positions[b],
        decreases leaves.len() - i,
    {
        if leaves[i - 1].0 >= leaves[i].0 {
            proof {
                assert(positions[i - 1] >= positions[i as int]);
            }
            return false;
        }
        proof {
            assert forall|a: int, b: int|
                0 <= a < b < i + 1 && b < positions.len() implies #[trigger] positions[a]
                < #[trigger] positions[b] by {
                if b == i {
                    assert(positions[i - 1] < positions[i as int]);
                    if a < i - 1 {
                        assert(positions[a] < positions[i - 1]);
                    }
                }
            }
        }
        i = i + 1;
    }
    true
}

/// Reads one item and hands out its payload, borrowed from the buffer.
pub fn read_item<'a>(reader: &mut Reader<'a>) -> (item: Result<&'a [u8], DecodeError>)
    ensures
        match item {
            Ok(payload) => parse_item(old(reader).rest()) == Some(
                (payload@, final(reader).rest()),
            ),
            Err(e) => {
                &&& e == DecodeError::UnexpectedEof
                &&& parse_item(old(reader).rest()) is None
                &&& final(reader).rest() == if old(reader).rest().len() < 2 {
                    old(reader).rest()
                } else {
                    old(reader).rest().skip(2)
                }
            },
        },
{
    let ghost before = reader.rest();
    let declared: u64 = match reader.read_le(2) {
        Ok(v) => v,
        Err(e) => {
            return Err(e);
        },
    };
    proof {
        lemma_le_value_bound(before.take(2));
        lemma_pow256_widths();
    }
    let taken = reader.take(declared as usize);
    proof {
        if taken is Ok {
            let end = 2 + declared as int;
            assert(before.skip(2).take(declared as int) =~= before.subrange(2, end));
            assert(before.skip(2).skip(declared as int) =~= before.skip(end));
        }
    }
    taken
}

/// Reads one leaf record: its position and its value, borrowed from the
/// buffer.
pub fn read_leaf<'a>(reader: &mut Reader<'a>) -> (leaf: Result<(u64, &'a [u8]), DecodeError>)
    ensures
        match leaf {
            Ok((position, value)) => parse_leaf(old(reader).rest()) == Some(
                ((position, value@), final(reader).rest()),
            ),
            Err(e) => {
                &&& e == DecodeError::UnexpectedEof
                &&& parse_leaf(old(reader).rest()) is None
                &&& final(reader).rest() == if old(reader).rest().len() < 8 {
                    old(reader).rest()
                } else if old(reader).rest().len() < 10 {
                    old(reader).rest().skip(8)
                } else {
                    old(reader).rest().skip(10)
                }
            },
        },
{
    let ghost before = reader.rest();
    let position: u64 = match reader.read_le(8) {
        Ok(v) => v,
        Err(e) => {
            return Err(e);
        },
    };
    let item = read_item(reader);
    proof {
        if before.len() >= 10 {
            assert(before.skip(8).skip(2) =~= before.skip(10));
        }
    }
    match item {
        Ok(value) => Ok((position, value)),
        Err(e) => Err(e),
    }
}

/// Appends one item to `out`. Fails, leaving `out` as it was, exactly when
/// the payload is too long for its length to be declared.
pub fn put_item(out: &mut Vec<u8>, payload: &[u8]) -> (done: Result<(), DecodeError>)
    ensures
        match done {
            Ok(()) => item_fits(payload@) && final(out)@ == old(out)@ + item_wire(payload@),
            Err(e) => {
                &&& e == DecodeError::ItemTooLarge
                &&& !item_fits(payload@)
                &&& final(out)@ == old(out)@
            },
        },
{
    if payload.len() > MAX_ITEM_LEN {
        return Err(DecodeError::ItemTooLarge);
    }
    proof {
        lemma_pow256_widths();
    }
    push_le(out, payload.len() as u64, 2);
    let ghost headed = out@;
    out.extend_from_slice(payload);
    proof {
        assert(out@ =~= headed + payload@);
        assert(out@ =~= old(out)@ + item_wire(payload@));
    }
    Ok(())
}

/// Appends one leaf record to `out`. Fails, leaving `out` as it was,
/// exactly when the value is too long for its length to be declared.
pub fn put_leaf(out: &mut Vec<u8>, position: u64, value: &[u8]) -> (done: Result<
    (),
    DecodeError,
>)
    ensures
        match done {
            Ok(()) => {
                &&& item_fits(value@)
                &&& final(out)@ == old(out)@ + leaf_wire((position, value@))
            },
            Err(e) => {
                &&& e == DecodeError::ItemTooLarge
                &&& !item_fits(value@)
                &&& final(out)@ == old(out)@
            },
        },
{
    if value.len() > MAX_ITEM_LEN {
        return Err(DecodeError::ItemTooLarge);
    }
    proof {
        lemma_pow256_widths();
    }
    push_le(out, position, 8);
    let ghost headed = out@;
    match put_item(out, value) {
        Ok(()) => {
            proof {
                assert(out@ =~= old(out)@ + leaf_wire((position, value@)));
            }
            Ok(())
        },
        Err(e) => Err(e),
    }
}

} // verus!
