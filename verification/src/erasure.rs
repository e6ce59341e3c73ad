//! The Reed-Solomon erasure code of the `reed_solomon_erasure` crate, over bytes.

use vstd::prelude::*;

verus! {

/// Why the code refuses shards.
#[verifier::external_type_specification]
#[verifier::external_body]
pub struct ExErasureError(reed_solomon_erasure::Error);

/// Most shards, data and parity together, that one group can have.
pub const MAX_CODE_SHARDS: usize = 256;

/// The `parity` parity shards of the data shards `data`.
pub uninterp spec fn rs_parity(data: Seq<Seq<u8>>, parity: nat) -> Seq<Seq<u8>>;

/// All shards of a group with `data` data shards, computed from those of its slots
/// that are filled.
pub uninterp spec fn rs_fill(slots: Seq<Option<Seq<u8>>>, data: nat) -> Seq<Seq<u8>>;

/// The bytes of each shard.
pub open spec fn shard_views(shards: Seq<Vec<u8>>) -> Seq<Seq<u8>> {
    Seq::new(shards.len(), |i: int| shards[i]@)
}

/// The bytes in a slot, if it is filled.
pub open spec fn slot_view(slot: Option<Vec<u8>>) -> Option<Seq<u8>> {
    match slot {
        Some(shard) => Some(shard@),
        None => None,
    }
}

/// The bytes in each slot.
pub open spec fn slot_views(slots: Seq<Option<Vec<u8>>>) -> Seq<Option<Seq<u8>>> {
    Seq::new(slots.len(), |i: int| slot_view(slots[i]))
}

/// Slots that are all filled, with `shards`.
pub open spec fn filled(shards: Seq<Seq<u8>>) -> Seq<Option<Seq<u8>>> {
    Seq::new(shards.len(), |i: int| Some(shards[i]))
}

/// How many slots are filled.
pub open spec fn present(slots: Seq<Option<Seq<u8>>>) -> nat
    decreases slots.len(),
{
    if slots.len() == 0 {
        0
    } else {
        present(slots.drop_last()) + if slots.last() is Some {
            1nat
        } else {
            0nat
        }
    }
}

/// Whether all shards have the same positive length.
pub open spec fn uniform(shards: Seq<Seq<u8>>) -> bool {
    forall|i: int| 0 <= i < shards.len() ==> (#[trigger] shards[i]).len() == shards[0].len() > 0
}

/// Whether all filled slots hold the same positive number of bytes.
pub open spec fn uniform_slots(slots: Seq<Option<Seq<u8>>>) -> bool {
    forall|i: int, j: int|
        0 <= i < slots.len() && 0 <= j < slots.len() && (#[trigger] slots[i]) is Some && (
        #[trigger] slots[j]) is Some ==> slots[i]->0.len() == slots[j]->0.len() > 0
}

/// Data shards with their parity shards behind them.
pub open spec fn codeword(data: Seq<Seq<u8>>, parity: nat) -> Seq<Seq<u8>> {
    data + rs_parity(data, parity)
}

/// Whether `data` has `parity` parity shards, all as long as the data shards.
pub open spec fn coded(data: Seq<Seq<u8>>, parity: nat) -> bool {
    &&& rs_parity(data, parity).len() == parity
    &&& uniform(codeword(data, parity))
}

/// Whether every filled slot holds the shard of `word` at its place.
pub open spec fn agrees(slots: Seq<Option<Seq<u8>>>, word: Seq<Seq<u8>>) -> bool {
    &&& slots.len() == word.len()
    &&& forall|i: int| 0 <= i < slots.len() && (#[trigger] slots[i]) is Some ==> slots[i] == Some(
        word[i],
    )
}

/// Whether slots that agree with the shards of a group that was encoded are filled
/// up to just those shards.
pub open spec fn recovery(slots: Seq<Option<Seq<u8>>>, data: nat, parity: nat) -> bool {
    forall|word: Seq<Seq<u8>>|
        word.len() == data && uniform(word) && #[trigger] agrees(slots, codeword(word, parity))
            ==> rs_fill(slots, data) == codeword(word, parity)
}

/// Calls `ReedSolomon::new` and `encode`. Claims that the parity shards are a
/// function of the data shards and overwrite what stood behind them, that they
/// are as long as the data shards, and that the call fails, touching nothing, if
/// and only if the shards do not all have one positive length.
#[verifier::external_body]
pub(crate) fn encode_parity(shards: &mut Vec<Vec<u8>>, data: usize, parity: usize) -> (done: Result<
    (),
    reed_solomon_erasure::Error,
>)
    requires
        1 <= data,
        1 <= parity,
        data + parity <= MAX_CODE_SHARDS,
        old(shards)@.len() == data + parity,
    ensures
        done is Ok <==> uniform(shard_views(old(shards)@)),
        done is Err ==> shard_views(final(shards)@) == shard_views(old(shards)@),
        done is Ok ==> {
            &&& shard_views(final(shards)@) == shard_views(old(shards)@).take(data as int)
                + rs_parity(shard_views(old(shards)@).take(data as int), parity as nat)
            &&& coded(shard_views(old(shards)@).take(data as int), parity as nat)
        },
{
    reed_solomon_erasure::galois_8::ReedSolomon::new(data, parity)?.encode(shards)
}

/// Calls `ReedSolomon::new` and `reconstruct`. Claims that the call fails,
/// touching nothing, if and only if fewer slots are filled than there are data
/// shards or the filled ones do not all have one positive length; that otherwise
/// it fills every slot as a function of the filled ones, which stay; and that
/// slots which agree with a codeword are filled up to that codeword.
#[verifier::external_body]
pub(crate) fn reconstruct(
    slots: &mut Vec<Option<Vec<u8>>>,
    data: usize,
    parity: usize,
) -> (done: Result<(), reed_solomon_erasure::Error>)
    requires
        1 <= data,
        1 <= parity,
        data + parity <= MAX_CODE_SHARDS,
        old(slots)@.len() == data + parity,
    ensures
        done is Ok <==> present(slot_views(old(slots)@)) >= data && uniform_slots(
            slot_views(old(slots)@),
        ),
        done is Err ==> slot_views(final(slots)@) == slot_views(old(slots)@),
        done is Ok ==> {
            &&& slot_views(final(slots)@) == filled(
                rs_fill(slot_views(old(slots)@), data as nat),
            )
            &&& final(slots)@.len() == data + parity
            &&& agrees(
                slot_views(old(slots)@),
                rs_fill(slot_views(old(slots)@), data as nat),
            )
            &&& recovery(slot_views(old(slots)@), data as nat, parity as nat)
        },
{
    reed_solomon_erasure::galois_8::ReedSolomon::new(data, parity)?.reconstruct(slots)
}

/// The places of the filled slots.
pub open spec fn filled_places(slots: Seq<Option<Seq<u8>>>) -> Set<int> {
    Set::new(|i: int| 0 <= i < slots.len() && slots[i] is Some)
}

/// Counting the filled slots gives the number of their places.
pub proof fn law_present_counts_the_filled(slots: Seq<Option<Seq<u8>>>)
    ensures
        filled_places(slots).finite(),
        present(slots) == filled_places(slots).len(),
        present(slots) <= slots.len(),
    decreases slots.len(),
{
    let places = filled_places(slots);
    if slots.len() == 0 {
        assert(places =~= Set::empty());
    } else {
        let rest = slots.drop_last();
        let n = slots.len() - 1;
        law_present_counts_the_filled(rest);
        assert forall|i: int| 0 <= i < rest.len() implies rest[i] == slots[i] by {}
        if slots.last() is Some {
            assert(places =~= filled_places(rest).insert(n));
        } else {
            assert(places =~= filled_places(rest));
        }
    }
}

/// Shards and slots are seen as they are.
pub proof fn law_shards_are_seen_as_they_are(
    shards: Seq<Vec<u8>>,
    slots: Seq<Option<Vec<u8>>>,
    i: int,
)
    ensures
        shard_views(shards).len() == shards.len(),
        0 <= i < shards.len() ==> shard_views(shards)[i] == shards[i]@,
        slot_views(slots).len() == slots.len(),
        0 <= i < slots.len() ==> (slot_views(slots)[i] is Some <==> slots[i] is Some),
        0 <= i < slots.len() && slots[i] is Some ==> slot_views(slots)[i] == Some(slots[i]->0@),
{
}

} // verus!
