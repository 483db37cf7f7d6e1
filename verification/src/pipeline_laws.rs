//! What shredding and recovery have to do with one another.
use crate::hecc_core::{
    accepted, decoding, encoding, lemma_decode_encode, lemma_first_rejected_from, repeats_earlier,
    HeccParams,
};
use crate::hecc_pipeline::{
    be32, be32_value, block_id, block_list, block_shards, framed, has_block, has_index,
    hiding_fits, lemma_payload_blocks_len, lemma_recovered_failed, list_outcome, payload_blocks,
    picked, recovered_upto, recovering, shred_blocks, shredding, HeccPipelineError, HeccShard,
};
use vstd::prelude::*;
use vstd::relations::injective_on;
use vstd::set_lib::*;

verus! {

/// The indices other than zero that the shards of block `b` carry: the points
/// at which the block is known.
pub open spec fn block_indices(shards: Seq<HeccShard>, b: u32) -> Set<u8> {
    Set::new(
        |x: u8|
            x != 0 && exists|i: int|
                0 <= i < shards.len() && shards[i].block == b && shards[i].index == x,
    )
}

/// The first `upto` blocks, one behind the other.
pub open spec fn concat_blocks(blocks: Seq<Seq<u8>>, upto: nat) -> Seq<u8>
    decreases upto,
{
    if upto == 0 {
        Seq::empty()
    } else {
        concat_blocks(blocks, (upto - 1) as nat) + blocks[upto - 1]
    }
}

/// The pair was made from a shard of the list with an index other than zero.
pub open spec fn picked_from(list: Seq<HeccShard>, pair: (u8, usize)) -> bool {
    exists|l: int|
        0 <= l < list.len() && list[l].index != 0 && pair == (list[l].value, list[l].index as usize)
}

// ---------------------------------------------------------------------------
// Sets of bytes
// ---------------------------------------------------------------------------

proof fn lemma_byte_set_finite(s: Set<u8>)
    ensures
        s.finite(),
{
    let range = set_int_range(0, 256);
    let f = |i: int| i as u8;
    let all = range.map(f);
    lemma_int_range(0, 256);
    lemma_map_size_bound(range, all, f);
    assert forall|x: u8| s.contains(x) implies all.contains(x) by {
        assert(range.contains(x as int) && x == f(x as int));
    }
    lemma_len_subset(s, all);
}

/// Indices that all occur among the pairs are no more than the pairs.
proof fn lemma_covered_len(indices: Set<u8>, pairs: Seq<(u8, usize)>)
    requires
        forall|x: u8| indices.contains(x) ==> has_index(pairs, x as usize),
    ensures
        indices.len() <= pairs.len(),
{
    let dom = set_int_range(0, pairs.len() as int);
    let f = |j: int| pairs[j].1 as u8;
    let img = dom.map(f);
    lemma_int_range(0, pairs.len() as int);
    lemma_map_size_bound(dom, img, f);
    assert forall|x: u8| indices.contains(x) implies img.contains(x) by {
        let j = choose|j: int| 0 <= j < pairs.len() && pairs[j].1 == x as usize;
        assert(dom.contains(j) && x == f(j));
    }
    lemma_len_subset(indices, img);
}

/// Pairs at different points that all lie among the indices are no more than
/// the indices.
proof fn lemma_distinct_len(indices: Set<u8>, pairs: Seq<(u8, usize)>)
    requires
        forall|i: int, j: int| 0 <= i < j < pairs.len() ==> pairs[i].1 != pairs[j].1,
        forall|j: int|
            0 <= j < pairs.len() ==> (#[trigger] pairs[j]).1 <= 255 && indices.contains(
                pairs[j].1 as u8,
            ),
    ensures
        pairs.len() <= indices.len(),
{
    let dom = set_int_range(0, pairs.len() as int);
    let f = |j: int| pairs[j].1 as u8;
    let img = dom.map(f);
    lemma_int_range(0, pairs.len() as int);
    assert(injective_on(f, dom)) by {
        assert forall|x1: int, x2: int|
            dom.contains(x1) && dom.contains(x2) && #[trigger] f(x1) == #[trigger] f(
                x2,
            ) implies x1 == x2 by {
            assert(pairs[x1].1 <= 255 && pairs[x2].1 <= 255);
            if x1 < x2 {
                assert(pairs[x1].1 != pairs[x2].1);
            } else if x2 < x1 {
                assert(pairs[x2].1 != pairs[x1].1);
            }
        }
    }
    lemma_map_size(dom, img, f);
    assert forall|x: u8| img.contains(x) implies indices.contains(x) by {
        let j = choose|j: int| dom.contains(j) && x == f(j);
        assert(indices.contains(pairs[j].1 as u8));
    }
    lemma_byte_set_finite(indices);
    lemma_len_subset(img, indices);
}

// ---------------------------------------------------------------------------
// The scan of one block
// ---------------------------------------------------------------------------

/// The list of a block holds the shards of that block, and all of them.
pub proof fn lemma_block_list(shards: Seq<HeccShard>, b: u32)
    ensures
        block_list(shards, b).len() <= shards.len(),
        forall|l: int|
            0 <= l < block_list(shards, b).len() ==> (#[trigger] block_list(shards, b)[l]).block
                == b && shards.contains(block_list(shards, b)[l]),
        forall|i: int|
            0 <= i < shards.len() && (#[trigger] shards[i]).block == b ==> block_list(
                shards,
                b,
            ).contains(shards[i]),
    decreases shards.len(),
{
    if shards.len() > 0 {
        let front = shards.drop_last();
        let last = shards.last();
        let rest = block_list(front, b);
        let list = block_list(shards, b);
        lemma_block_list(front, b);
        assert forall|l: int| 0 <= l < list.len() implies (#[trigger] list[l]).block == b
            && shards.contains(list[l]) by {
            if l < rest.len() {
                assert(rest[l].block == b && front.contains(rest[l]));
                let i = choose|i: int| 0 <= i < front.len() && front[i] == rest[l];
                assert(shards[i] == list[l]);
            } else {
                assert(shards[shards.len() - 1] == list[l]);
            }
        }
        assert forall|i: int| 0 <= i < shards.len() && (#[trigger] shards[i]).block
            == b implies list.contains(shards[i]) by {
            if i < front.len() {
                assert(front[i].block == b);
                assert(rest.contains(front[i]));
                let l = choose|l: int| 0 <= l < rest.len() && rest[l] == front[i];
                assert(list[l] == shards[i]);
            } else {
                assert(list[list.len() - 1] == shards[i]);
            }
        }
    }
}

/// What the scan collects: pairs made from shards of the list, at points that
/// differ, no more than `need`; and where it ends with fewer, every index of
/// the list other than zero is among them.
pub proof fn lemma_picked(list: Seq<HeccShard>, need: nat)
    ensures
        picked(list, need).len() <= need,
        picked(list, need).len() <= list.len(),
        forall|j: int|
            0 <= j < picked(list, need).len() ==> picked_from(
                list,
                #[trigger] picked(list, need)[j],
            ),
        forall|i: int, j: int|
            0 <= i < j < picked(list, need).len() ==> picked(list, need)[i].1 != picked(
                list,
                need,
            )[j].1,
        picked(list, need).len() < need ==> forall|l: int|
            0 <= l < list.len() && (#[trigger] list[l]).index != 0 ==> has_index(
                picked(list, need),
                list[l].index as usize,
            ),
    decreases list.len(),
{
    if list.len() > 0 {
        let front = list.drop_last();
        let shard = list.last();
        let rest = picked(front, need);
        let pairs = picked(list, need);
        lemma_picked(front, need);
        assert forall|j: int| 0 <= j < pairs.len() implies picked_from(
            list,
            #[trigger] pairs[j],
        ) by {
            if j < rest.len() {
                assert(picked_from(front, rest[j]));
                let l = choose|l: int|
                    0 <= l < front.len() && front[l].index != 0 && rest[j] == (
                        front[l].value,
                        front[l].index as usize,
                    );
                assert(list[l] == front[l]);
            } else {
                assert(list[list.len() - 1] == shard);
            }
        }
        assert forall|i: int, j: int| 0 <= i < j < pairs.len() implies pairs[i].1
            != pairs[j].1 by {
            if j < rest.len() {
                assert(rest[i].1 != rest[j].1);
            } else {
                assert(!has_index(rest, shard.index as usize));
            }
        }
        if pairs.len() < need {
            assert forall|l: int| 0 <= l < list.len() && (#[trigger] list[l]).index
                != 0 implies has_index(pairs, list[l].index as usize) by {
                if l < front.len() {
                    assert(front[l] == list[l]);
                    assert(has_index(rest, front[l].index as usize));
                    let j = choose|j: int|
                        0 <= j < rest.len() && rest[j].1 == front[l].index as usize;
                    assert(pairs[j].1 == list[l].index as usize);
                } else if pairs.len() > rest.len() {
                    assert(pairs[rest.len() as int].1 == shard.index as usize);
                } else {
                    assert(has_index(rest, shard.index as usize));
                }
            }
        }
    }
}

/// The scan of a block's shards ends with `need` pairs exactly where the
/// block is known at `need` points or more.
pub proof fn lemma_picked_len(shards: Seq<HeccShard>, b: u32, need: nat)
    ensures
        picked(block_list(shards, b), need).len() == need <==> block_indices(shards, b).len()
            >= need,
        picked(block_list(shards, b), need).len() <= need,
        picked(block_list(shards, b), need).len() <= block_list(shards, b).len(),
{
    let list = block_list(shards, b);
    let pairs = picked(list, need);
    let indices = block_indices(shards, b);
    lemma_picked(list, need);
    lemma_block_list(shards, b);
    assert forall|j: int| 0 <= j < pairs.len() implies (#[trigger] pairs[j]).1 <= 255
        && indices.contains(pairs[j].1 as u8) by {
        assert(picked_from(list, pairs[j]));
        let l = choose|l: int|
            0 <= l < list.len() && list[l].index != 0 && pairs[j] == (
                list[l].value,
                list[l].index as usize,
            );
        assert(list[l].block == b && shards.contains(list[l]));
        let i = choose|i: int| 0 <= i < shards.len() && shards[i] == list[l];
        assert(shards[i].block == b && shards[i].index == list[l].index);
    }
    lemma_distinct_len(indices, pairs);
    if pairs.len() < need {
        assert forall|x: u8| indices.contains(x) implies has_index(pairs, x as usize) by {
            let i = choose|i: int|
                0 <= i < shards.len() && shards[i].block == b && shards[i].index == x;
            assert(list.contains(shards[i]));
            let l = choose|l: int| 0 <= l < list.len() && list[l] == shards[i];
            assert(list[l].index != 0);
        }
        lemma_covered_len(indices, pairs);
    }
}

// ---------------------------------------------------------------------------
// Recovery of what was shredded
// ---------------------------------------------------------------------------

/// Every shard of a shredding is a value of one of its blocks.
proof fn lemma_shred_member(
    blocks: Seq<Seq<u8>>,
    hiding: Seq<Seq<u8>>,
    n: nat,
    upto: nat,
    s: HeccShard,
) -> (w: (nat, int))
    requires
        shred_blocks(blocks, hiding, n, upto).contains(s),
    ensures
        w.0 < upto,
        0 <= w.1 < n,
        s == (HeccShard {
            block: block_id(w.0),
            index: (w.1 + 1) as u8,
            value: encoding(blocks[w.0 as int], hiding[w.0 as int], n)[w.1],
        }),
    decreases upto,
{
    let whole = shred_blocks(blocks, hiding, n, upto);
    let j = choose|j: int| 0 <= j < whole.len() && whole[j] == s;
    if upto == 0 {
        (0, 0)
    } else {
        let head = shred_blocks(blocks, hiding, n, (upto - 1) as nat);
        let tail = block_shards(
            block_id((upto - 1) as nat),
            encoding(blocks[upto - 1], hiding[upto - 1], n),
        );
        if j < head.len() {
            assert(head[j] == s);
            lemma_shred_member(blocks, hiding, n, (upto - 1) as nat, s)
        } else {
            assert(tail[j - head.len()] == s);
            ((upto - 1) as nat, j - head.len())
        }
    }
}

/// The shards `kept` are shards of the message, and of each of its blocks
/// they hold K + T or more at different points. The blocks are few enough
/// for their indices not to wrap.
spec fn enough_kept(
    params: HeccParams,
    message: Seq<u8>,
    hiding: Seq<Seq<u8>>,
    kept: Seq<HeccShard>,
) -> bool {
    let blocks = payload_blocks(framed(message), params.k as nat);
    &&& params.valid()
    &&& message.len() <= u32::MAX
    &&& hiding_fits(params, message, hiding)
    &&& blocks.len() <= 0x1_0000_0000
    &&& forall|i: int|
        0 <= i < kept.len() ==> shredding(params, message, hiding).contains(#[trigger] kept[i])
    &&& forall|b: nat|
        b < blocks.len() ==> block_indices(kept, #[trigger] block_id(b)).len() >= params.k
            + params.t
}

/// A shard that was kept lies in a block of the message, at one of its
/// points, and holds the value of the block's polynomial there.
proof fn lemma_kept_shard(
    params: HeccParams,
    message: Seq<u8>,
    hiding: Seq<Seq<u8>>,
    kept: Seq<HeccShard>,
    i: int,
)
    requires
        enough_kept(params, message, hiding, kept),
        0 <= i < kept.len(),
    ensures
        ({
            let blocks = payload_blocks(framed(message), params.k as nat);
            let b = kept[i].block as int;
            &&& 0 <= b < blocks.len()
            &&& 1 <= kept[i].index <= params.n
            &&& kept[i].value == encoding(blocks[b], hiding[b], params.n as nat)[kept[i].index
                - 1]
        }),
{
    let blocks = payload_blocks(framed(message), params.k as nat);
    assert(shredding(params, message, hiding).contains(kept[i]));
    let w = lemma_shred_member(blocks, hiding, params.n as nat, blocks.len(), kept[i]);
}

/// Each block of the message comes back from the shards that were kept.
proof fn lemma_block_recovered(
    params: HeccParams,
    message: Seq<u8>,
    hiding: Seq<Seq<u8>>,
    kept: Seq<HeccShard>,
    b: nat,
)
    requires
        enough_kept(params, message, hiding, kept),
        b < payload_blocks(framed(message), params.k as nat).len(),
    ensures
        has_block(kept, block_id(b)),
        list_outcome(params, block_id(b), block_list(kept, block_id(b))) == Ok::<
            Seq<u8>,
            HeccPipelineError,
        >(payload_blocks(framed(message), params.k as nat)[b as int]),
{
    let blocks = payload_blocks(framed(message), params.k as nat);
    let id = block_id(b);
    let need = (params.k + params.t) as nat;
    let list = block_list(kept, id);
    let pairs = picked(list, need);
    let indices = block_indices(kept, id);
    assert(indices.len() >= need);
    assert(has_block(kept, id)) by {
        if forall|x: u8| !indices.contains(x) {
            assert(indices =~= Set::<u8>::empty());
        }
        let x = choose|x: u8| indices.contains(x);
        let i = choose|i: int|
            0 <= i < kept.len() && kept[i].block == id && kept[i].index == x;
        assert(kept[i].block == id);
    }
    lemma_picked_len(kept, id, need);
    lemma_picked(list, need);
    lemma_block_list(kept, id);
    lemma_payload_blocks_len(framed(message), params.k as nat, b as int);
    assert(hiding[b as int].len() == params.t);
    assert forall|j: int| 0 <= j < need implies 1 <= (#[trigger] pairs[j]).1 <= params.n
        && pairs[j].0 == encoding(blocks[b as int], hiding[b as int], params.n as nat)[pairs[j].1
        - 1] by {
        assert(picked_from(list, pairs[j]));
        let l = choose|l: int|
            0 <= l < list.len() && list[l].index != 0 && pairs[j] == (
                list[l].value,
                list[l].index as usize,
            );
        assert(list[l].block == id && kept.contains(list[l]));
        let i = choose|i: int| 0 <= i < kept.len() && kept[i] == list[l];
        lemma_kept_shard(params, message, hiding, kept, i);
    }
    lemma_decode_encode(blocks[b as int], hiding[b as int], params.n as nat, pairs);
}

/// No shard that was kept lies in a block that the message does not have.
proof fn lemma_no_block_beyond(
    params: HeccParams,
    message: Seq<u8>,
    hiding: Seq<Seq<u8>>,
    kept: Seq<HeccShard>,
    b: u32,
)
    requires
        enough_kept(params, message, hiding, kept),
        b >= payload_blocks(framed(message), params.k as nat).len(),
    ensures
        !has_block(kept, b),
{
    if has_block(kept, b) {
        let i = choose|i: int| 0 <= i < kept.len() && kept[i].block == b;
        lemma_kept_shard(params, message, hiding, kept, i);
    }
}

/// The blocks come back in their order.
proof fn lemma_recovered_blocks(
    params: HeccParams,
    message: Seq<u8>,
    hiding: Seq<Seq<u8>>,
    kept: Seq<HeccShard>,
    upto: nat,
)
    requires
        enough_kept(params, message, hiding, kept),
        upto <= 0x1_0000_0000,
    ensures
        ({
            let blocks = payload_blocks(framed(message), params.k as nat);
            recovered_upto(params, kept, upto) == Ok::<Seq<u8>, HeccPipelineError>(
                concat_blocks(
                    blocks,
                    if upto <= blocks.len() {
                        upto
                    } else {
                        blocks.len()
                    },
                ),
            )
        }),
    decreases upto,
{
    let blocks = payload_blocks(framed(message), params.k as nat);
    if upto > 0 {
        let b = (upto - 1) as nat;
        lemma_recovered_blocks(params, message, hiding, kept, b);
        if b < blocks.len() {
            lemma_block_recovered(params, message, hiding, kept, b);
        } else {
            lemma_no_block_beyond(params, message, hiding, kept, b as u32);
        }
    }
}

proof fn lemma_concat_front(first: Seq<u8>, rest: Seq<Seq<u8>>, upto: nat)
    requires
        upto <= rest.len(),
    ensures
        concat_blocks(seq![first] + rest, upto + 1) == first + concat_blocks(rest, upto),
    decreases upto,
{
    let all = seq![first] + rest;
    if upto == 0 {
        assert(concat_blocks(all, 0) == Seq::<u8>::empty());
        assert(concat_blocks(all, 1) == concat_blocks(all, 0) + all[0]);
        assert(concat_blocks(all, 1) =~= first + concat_blocks(rest, 0));
    } else {
        lemma_concat_front(first, rest, (upto - 1) as nat);
        assert(all[upto as int] == rest[upto - 1]);
        assert(concat_blocks(all, upto + 1) =~= first + concat_blocks(rest, upto));
    }
}

/// The blocks of a payload, one behind the other, begin with the payload.
proof fn lemma_concat_payload(payload: Seq<u8>, k: nat)
    requires
        k >= 1,
    ensures
        ({
            let blocks = payload_blocks(payload, k);
            let all = concat_blocks(blocks, blocks.len());
            &&& all.len() >= payload.len()
            &&& all.take(payload.len() as int) == payload
        }),
    decreases payload.len(),
{
    let blocks = payload_blocks(payload, k);
    let all = concat_blocks(blocks, blocks.len());
    if payload.len() == 0 {
        assert(all.take(0) =~= payload);
    } else if payload.len() <= k {
        assert(concat_blocks(blocks, 0) == Seq::<u8>::empty());
        assert(all == concat_blocks(blocks, 0) + blocks[0]);
        assert(all.take(payload.len() as int) =~= payload);
    } else {
        let first = payload.take(k as int);
        let tail = payload.skip(k as int);
        let rest = payload_blocks(tail, k);
        lemma_concat_payload(tail, k);
        lemma_concat_front(first, rest, rest.len());
        let behind = concat_blocks(rest, rest.len());
        assert(all == first + behind);
        assert(behind.take(tail.len() as int) == tail);
        assert forall|i: int| 0 <= i < payload.len() implies all[i] == payload[i] by {
            if i >= k {
                assert(behind.take(tail.len() as int)[i - k] == tail[i - k]);
            }
        }
        assert(all.take(payload.len() as int) =~= payload);
    }
}

proof fn lemma_be32(v: nat)
    requires
        v <= u32::MAX,
    ensures
        be32(v).len() == 4,
        be32_value(be32(v)) == v,
{
}

/// There are no more blocks than the payload has bytes, and with blocks of two
/// bytes or more about half as many at most.
proof fn lemma_block_count(payload: Seq<u8>, k: nat)
    requires
        k >= 1,
    ensures
        payload_blocks(payload, k).len() <= payload.len(),
        k >= 2 ==> 2 * payload_blocks(payload, k).len() <= payload.len() + 1,
    decreases payload.len(),
{
    if payload.len() > k {
        lemma_block_count(payload.skip(k as int), k);
    }
}

/// The block indices of a message do not wrap where its blocks have two bytes
/// or more, or where the message with its header has no more than 2^32 bytes.
pub proof fn lemma_blocks_fit(params: HeccParams, message: Seq<u8>)
    requires
        params.valid(),
        message.len() <= u32::MAX,
        params.k >= 2 || message.len() + 4 <= 0x1_0000_0000,
    ensures
        payload_blocks(framed(message), params.k as nat).len() <= 0x1_0000_0000,
{
    lemma_block_count(framed(message), params.k as nat);
}

/// Recovery gives the message back: from shards of a shredding of it, however
/// many of them, in whatever order and with whatever repetitions, as long as
/// of each block K + T or more at different points are among them. The
/// hiding bytes may be any.
pub proof fn lemma_recover_shred(
    params: HeccParams,
    message: Seq<u8>,
    hiding: Seq<Seq<u8>>,
    kept: Seq<HeccShard>,
)
    requires
        params.valid(),
        message.len() <= u32::MAX,
        hiding_fits(params, message, hiding),
        payload_blocks(framed(message), params.k as nat).len() <= 0x1_0000_0000,
        forall|i: int|
            0 <= i < kept.len() ==> shredding(params, message, hiding).contains(#[trigger] kept[i]),
        forall|b: nat|
            b < payload_blocks(framed(message), params.k as nat).len() ==> block_indices(
                kept,
                #[trigger] block_id(b),
            ).len() >= params.k + params.t,
    ensures
        recovering(params, kept) == Ok::<Seq<u8>, HeccPipelineError>(message),
{
    let payload = framed(message);
    let blocks = payload_blocks(payload, params.k as nat);
    let all = concat_blocks(blocks, blocks.len());
    assert(enough_kept(params, message, hiding, kept));
    lemma_recovered_blocks(params, message, hiding, kept, 0x1_0000_0000);
    lemma_concat_payload(payload, params.k as nat);
    lemma_be32(message.len());
    assert(all.take(payload.len() as int) == payload);
    assert(all.subrange(0, 4) =~= be32(message.len())) by {
        assert forall|i: int| 0 <= i < 4 implies all[i] == be32(message.len())[i] by {
            assert(all.take(payload.len() as int)[i] == payload[i]);
        }
    }
    assert(all.subrange(4, 4 + message.len() as int) =~= message) by {
        assert forall|i: int| 0 <= i < message.len() implies all[4 + i] == message[i] by {
            assert(all.take(payload.len() as int)[4 + i] == payload[4 + i]);
        }
    }
}

// ---------------------------------------------------------------------------
// Blocks that are short of shards
// ---------------------------------------------------------------------------

/// A block known at K + T points or more is decoded.
proof fn lemma_sufficient_block(params: HeccParams, shards: Seq<HeccShard>, b: u32)
    requires
        params.valid(),
        block_indices(shards, b).len() >= params.k + params.t,
    ensures
        list_outcome(params, b, block_list(shards, b)) is Ok,
{
    let need = (params.k + params.t) as nat;
    let list = block_list(shards, b);
    let pairs = picked(list, need);
    lemma_picked_len(shards, b, need);
    lemma_picked(list, need);
    assert forall|j: int| 0 <= j < need implies accepted(pairs, j) by {
        assert(picked_from(list, pairs[j]));
        if repeats_earlier(pairs, j) {
            let i = choose|i: int| 0 <= i < j && pairs[i].1 == pairs[j].1;
            assert(pairs[i].1 != pairs[j].1);
        }
    }
    lemma_first_rejected_from(pairs, need, need);
    assert(decoding(pairs, params.k as nat, params.t as nat) is Ok);
}

/// A block known at fewer than K + T points is refused.
proof fn lemma_short_block(params: HeccParams, shards: Seq<HeccShard>, b: u32)
    requires
        params.valid(),
        block_indices(shards, b).len() < params.k + params.t,
    ensures
        list_outcome(params, b, block_list(shards, b)) matches Err(
            HeccPipelineError::NotEnoughShards { block, have, need },
        ) && block == b && need == params.k + params.t && have < need,
{
    lemma_picked_len(shards, b, (params.k + params.t) as nat);
}

/// As long as no block is short, recovery goes on.
proof fn lemma_recovered_sufficient(params: HeccParams, shards: Seq<HeccShard>, upto: nat)
    requires
        params.valid(),
        upto <= 0x1_0000_0000,
        forall|c: u32|
            c < upto && has_block(shards, c) ==> block_indices(shards, c).len() >= params.k
                + params.t,
    ensures
        recovered_upto(params, shards, upto) is Ok,
    decreases upto,
{
    if upto > 0 {
        let c = (upto - 1) as u32;
        lemma_recovered_sufficient(params, shards, (upto - 1) as nat);
        if has_block(shards, c) {
            lemma_sufficient_block(params, shards, c);
        }
    }
}

/// Recovery fails with `NotEnoughShards` for block `b` where some shard lies
/// in block `b`, the block is known at fewer than K + T points, and no block
/// with a lower index is short in that way.
pub proof fn lemma_recover_insufficient(params: HeccParams, shards: Seq<HeccShard>, b: u32)
    requires
        params.valid(),
        has_block(shards, b),
        block_indices(shards, b).len() < params.k + params.t,
        forall|c: u32|
            c < b && has_block(shards, c) ==> block_indices(shards, c).len() >= params.k
                + params.t,
    ensures
        recovering(params, shards) matches Err(
            HeccPipelineError::NotEnoughShards { block, have, need },
        ) && block == b && need == params.k + params.t && have < need,
{
    lemma_recovered_sufficient(params, shards, b as nat);
    lemma_short_block(params, shards, b);
    assert(recovered_upto(params, shards, (b + 1) as nat) is Err);
    lemma_recovered_failed(params, shards, (b + 1) as nat, 0x1_0000_0000);
}

/// The lowest block that is short of shards.
proof fn lemma_lowest_short(params: HeccParams, shards: Seq<HeccShard>, b: u32) -> (c: u32)
    requires
        has_block(shards, b),
        block_indices(shards, b).len() < params.k + params.t,
    ensures
        c <= b,
        has_block(shards, c),
        block_indices(shards, c).len() < params.k + params.t,
        forall|d: u32|
            d < c && has_block(shards, d) ==> block_indices(shards, d).len() >= params.k
                + params.t,
    decreases b,
{
    if exists|d: u32|
        d < b && has_block(shards, d) && block_indices(shards, d).len() < params.k + params.t {
        let d = choose|d: u32|
            d < b && has_block(shards, d) && block_indices(shards, d).len() < params.k
                + params.t;
        lemma_lowest_short(params, shards, d)
    } else {
        b
    }
}

/// Where any block is known at fewer than K + T points, recovery fails with
/// `NotEnoughShards`, and the block it names is such a block: the one with
/// the lowest index.
pub proof fn lemma_recover_names_short_block(params: HeccParams, shards: Seq<HeccShard>, b: u32)
    requires
        params.valid(),
        has_block(shards, b),
        block_indices(shards, b).len() < params.k + params.t,
    ensures
        recovering(params, shards) matches Err(
            HeccPipelineError::NotEnoughShards { block, have, need },
        ) && block <= b && has_block(shards, block) && block_indices(shards, block).len()
            < params.k + params.t && need == params.k + params.t && have < need,
{
    let c = lemma_lowest_short(params, shards, b);
    lemma_recover_insufficient(params, shards, c);
}

} // verus!
