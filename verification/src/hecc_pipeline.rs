//! Byte payloads: a message is framed with its length, cut into blocks of K
//! bytes, and each block is encoded with hiding bytes of its own.
use crate::block_order::{lemma_block_keys_ordered, lemma_keys_ascend};
use crate::hecc_core::{decoding, encoding, hecc_decode, hecc_encode, HeccParams};
use rand::rngs::StdRng;
use rand::RngCore;
use std::collections::BTreeMap;
use vstd::prelude::*;
use vstd::std_specs::btree::increasing_seq;
use vstd::std_specs::iter::IteratorSpec;

verus! {

/// The standard generator of the rand crate. Nothing is known of what it
/// holds: it is handed on to the call that draws from it.
#[verifier::external_type_specification]
#[verifier::external_body]
pub struct ExStdRng(StdRng);

/// One value of a block's polynomial: `value` at the point `index` of block
/// `block`.
#[derive(Debug, Clone, Copy, PartialEq, Eq, Structural)]
pub struct HeccShard {
    pub block: u32,
    pub index: u8,
    pub value: u8,
}

#[derive(Debug)]
pub enum HeccPipelineError {
    InvalidParams,
    NotEnoughShards { block: u32, have: usize, need: usize },
    InvalidHeader,
    LengthOverflow,
}

/// The four bytes of `v`, most significant first.
pub open spec fn be32(v: nat) -> Seq<u8> {
    seq![
        ((v / 0x100_0000) % 256) as u8,
        ((v / 0x1_0000) % 256) as u8,
        ((v / 0x100) % 256) as u8,
        (v % 256) as u8,
    ]
}

/// The number that four bytes hold, most significant first.
pub open spec fn be32_value(b: Seq<u8>) -> nat {
    (b[0] as nat) * 0x100_0000 + (b[1] as nat) * 0x1_0000 + (b[2] as nat) * 0x100 + (b[3] as nat)
}

/// The message behind its length.
pub open spec fn framed(message: Seq<u8>) -> Seq<u8> {
    be32(message.len()) + message
}

/// The payload cut into blocks of `k` bytes, the last one filled up with
/// zeros.
pub open spec fn payload_blocks(payload: Seq<u8>, k: nat) -> Seq<Seq<u8>>
    decreases payload.len(),
{
    if k == 0 || payload.len() == 0 {
        Seq::empty()
    } else if payload.len() <= k {
        seq![payload + Seq::new((k - payload.len()) as nat, |i: int| 0u8)]
    } else {
        seq![payload.take(k as int)] + payload_blocks(payload.skip(k as int), k)
    }
}

/// The index that the `b`-th block carries: the count wraps at 32 bits.
pub open spec fn block_id(b: nat) -> u32 {
    (b % 0x1_0000_0000) as u32
}

/// The values of one block as shards: value `i` lies at the point `i + 1`.
pub open spec fn block_shards(block: u32, values: Seq<u8>) -> Seq<HeccShard> {
    Seq::new(
        values.len(),
        |i: int| HeccShard { block, index: (i + 1) as u8, value: values[i] },
    )
}

/// The shards of the first `upto` blocks, block after block.
pub open spec fn shred_blocks(blocks: Seq<Seq<u8>>, hiding: Seq<Seq<u8>>, n: nat, upto: nat) -> Seq<
    HeccShard,
>
    decreases upto,
{
    if upto == 0 {
        Seq::empty()
    } else {
        shred_blocks(blocks, hiding, n, (upto - 1) as nat) + block_shards(
            block_id((upto - 1) as nat),
            encoding(blocks[upto - 1], hiding[upto - 1], n),
        )
    }
}

/// The shards of a message, where `hiding[b]` are the hiding bytes of block
/// `b`.
pub open spec fn shredding(params: HeccParams, message: Seq<u8>, hiding: Seq<Seq<u8>>) -> Seq<
    HeccShard,
> {
    let blocks = payload_blocks(framed(message), params.k as nat);
    shred_blocks(blocks, hiding, params.n as nat, blocks.len())
}

/// Hiding bytes as a message needs them: `t` for each of its blocks.
pub open spec fn hiding_fits(params: HeccParams, message: Seq<u8>, hiding: Seq<Seq<u8>>) -> bool {
    &&& hiding.len() == payload_blocks(framed(message), params.k as nat).len()
    &&& forall|b: int| 0 <= b < hiding.len() ==> (#[trigger] hiding[b]).len() == params.t
}

/// Every block has `k` bytes.
pub proof fn lemma_payload_blocks_len(payload: Seq<u8>, k: nat, b: int)
    requires
        0 <= b < payload_blocks(payload, k).len(),
    ensures
        payload_blocks(payload, k)[b].len() == k,
    decreases payload.len(),
{
    if payload.len() > k && b > 0 {
        lemma_payload_blocks_len(payload.skip(k as int), k, b - 1);
    }
}

/// The shards of the blocks before `upto` depend on the hiding bytes of those
/// blocks only.
proof fn lemma_shred_blocks_ext(
    blocks: Seq<Seq<u8>>,
    hiding: Seq<Seq<u8>>,
    other: Seq<Seq<u8>>,
    n: nat,
    upto: nat,
)
    requires
        forall|b: int| 0 <= b < upto ==> hiding[b] == other[b],
    ensures
        shred_blocks(blocks, hiding, n, upto) == shred_blocks(blocks, other, n, upto),
    decreases upto,
{
    if upto > 0 {
        lemma_shred_blocks_ext(blocks, hiding, other, n, (upto - 1) as nat);
    }
}

/// The four bytes of `v`, most significant first.
fn be32_bytes(v: u32) -> (b: Vec<u8>)
    ensures
        b@ == be32(v as nat),
{
    let mut b: Vec<u8> = Vec::with_capacity(4);
    b.push((v / 0x100_0000) as u8);
    b.push(((v / 0x1_0000) % 256) as u8);
    b.push(((v / 0x100) % 256) as u8);
    b.push((v % 256) as u8);
    assert(b@ =~= be32(v as nat));
    b
}

/// Frames the message with its length and cuts the result into blocks of K
/// bytes, the last one filled up with zeros.
pub fn hecc_frame_blocks(params: HeccParams, message: &[u8]) -> (result: Result<
    Vec<Vec<u8>>,
    HeccPipelineError,
>)
    ensures
        result is Ok <==> params.valid() && message@.len() <= u32::MAX,
        result matches Ok(blocks) ==> {
            let spec_blocks = payload_blocks(framed(message@), params.k as nat);
            &&& blocks@.len() == spec_blocks.len()
            &&& forall|b: int| 0 <= b < blocks@.len() ==> (#[trigger] blocks@[b])@ == spec_blocks[b]
        },
        result matches Err(e) ==> if params.valid() {
            e is LengthOverflow
        } else {
            e is InvalidParams
        },
{
    if params.validate().is_err() {
        return Err(HeccPipelineError::InvalidParams);
    }
    let k = params.k;
    if message.len() > u32::MAX as usize {
        return Err(HeccPipelineError::LengthOverflow);
    }
    let mut payload = be32_bytes(message.len() as u32);
    for i in 0..message.len()
        invariant
            payload@ == be32(message@.len()) + message@.take(i as int),
    {
        payload.push(message[i]);
        assert(message@.take(i + 1) =~= message@.take(i as int).push(message@[i as int]));
        assert(payload@ =~= be32(message@.len()) + message@.take(i + 1));
    }
    assert(message@.take(message@.len() as int) =~= message@);

    let mut blocks: Vec<Vec<u8>> = Vec::new();
    let ghost spec_blocks = payload_blocks(payload@, k as nat);
    let mut offset: usize = 0;
    let total = payload.len();
    assert(payload@.skip(0) =~= payload@);
    while offset < total
        invariant
            1 <= k <= 255,
            total == payload@.len(),
            offset <= payload@.len(),
            spec_blocks.len() == blocks@.len() + payload_blocks(
                payload@.skip(offset as int),
                k as nat,
            ).len(),
            forall|b: int| 0 <= b < blocks@.len() ==> (#[trigger] blocks@[b])@ == spec_blocks[b],
            forall|b: int|
                blocks@.len() <= b < spec_blocks.len() ==> spec_blocks[b] == payload_blocks(
                    payload@.skip(offset as int),
                    k as nat,
                )[b - blocks@.len()],
        decreases payload@.len() - offset,
    {
        let left = total - offset;
        let take = if left < k {
            left
        } else {
            k
        };
        let ghost rest = payload@.skip(offset as int);
        let mut m: Vec<u8> = Vec::with_capacity(k);
        for i in 0..k
            invariant
                take <= k,
                total == payload@.len(),
                offset + take <= total,
                m@.len() == i,
                forall|j: int|
                    0 <= j < i ==> m@[j] == if j < take {
                        payload@[offset + j]
                    } else {
                        0u8
                    },
        {
            if i < take {
                m.push(payload[offset + i]);
            } else {
                m.push(0u8);
            }
        }
        proof {
            let tail = payload_blocks(rest, k as nat);
            if left <= k {
                assert(m@ =~= rest + Seq::new((k - rest.len()) as nat, |i: int| 0u8));
                assert(payload@.skip(offset + take) =~= Seq::<u8>::empty());
                assert(payload_blocks(payload@.skip(offset + take), k as nat).len() == 0);
            } else {
                assert(m@ =~= rest.take(k as int));
                assert(payload@.skip(offset + take) =~= rest.skip(k as int));
            }
            assert(tail[0] == m@);
        }
        blocks.push(m);
        offset = offset + take;
    }
    Ok(blocks)
}

/// The shards of one block: `m` encoded with the hiding bytes `r`, each value
/// with the block's index and its point.
pub fn hecc_shred_block(params: HeccParams, block: u32, m: &[u8], r: &[u8]) -> (result: Result<
    Vec<HeccShard>,
    HeccPipelineError,
>)
    ensures
        result is Ok <==> params.valid() && m@.len() == params.k && r@.len() == params.t,
        result matches Ok(shards) ==> shards@ == block_shards(
            block,
            encoding(m@, r@, params.n as nat),
        ),
        result matches Err(e) ==> e is InvalidParams,
{
    if params.validate().is_err() || m.len() != params.k || r.len() != params.t {
        return Err(HeccPipelineError::InvalidParams);
    }
    let encoded = match hecc_encode(m, r, params.n) {
        Ok(encoded) => encoded,
        Err(_) => {
            return Err(HeccPipelineError::InvalidParams);
        },
    };
    let mut shards: Vec<HeccShard> = Vec::with_capacity(encoded.len());
    for i in 0..encoded.len()
        invariant
            encoded@.len() <= 255,
            shards@.len() == i,
            forall|j: int|
                0 <= j < i ==> shards@[j] == (HeccShard {
                    block,
                    index: (j + 1) as u8,
                    value: encoded@[j],
                }),
    {
        shards.push(HeccShard { block, index: (i + 1) as u8, value: encoded[i] });
    }
    assert(shards@ =~= block_shards(block, encoded@));
    Ok(shards)
}

/// Draws `len` bytes from the generator. This is `StdRng::fill_bytes` of the
/// rand crate on a buffer of `len` bytes: the generator fills the whole
/// buffer and returns. Which bytes it writes is not stated.
#[verifier::external_body]
fn fill_hiding(rng: &mut StdRng, len: usize) -> (r: Vec<u8>)
    ensures
        r@.len() == len,
{
    let mut r = vec![0u8; len];
    rng.fill_bytes(&mut r);
    r
}

/// Shreds a message into shards: the message is framed and cut into blocks,
/// and each block is encoded with T hiding bytes drawn from `rng`.
pub fn hecc_shred_bytes(params: HeccParams, message: &[u8], rng: &mut StdRng) -> (result: Result<
    Vec<HeccShard>,
    HeccPipelineError,
>)
    ensures
        result is Ok <==> params.valid() && message@.len() <= u32::MAX,
        result matches Ok(shards) ==> exists|hiding: Seq<Seq<u8>>|
            hiding_fits(params, message@, hiding) && shards@ == shredding(
                params,
                message@,
                hiding,
            ),
        result matches Err(e) ==> if params.valid() {
            e is LengthOverflow
        } else {
            e is InvalidParams
        },
{
    let blocks = match hecc_frame_blocks(params, message) {
        Ok(blocks) => blocks,
        Err(e) => {
            return Err(e);
        },
    };
    let ghost spec_blocks = payload_blocks(framed(message@), params.k as nat);
    let ghost mut hiding: Seq<Seq<u8>> = Seq::empty();
    let mut shards: Vec<HeccShard> = Vec::new();
    let mut block: u32 = 0;
    proof {
        assert forall|j: int| 0 <= j < blocks@.len() implies (#[trigger] spec_blocks[j]).len()
            == params.k by {
            lemma_payload_blocks_len(framed(message@), params.k as nat, j);
        }
    }
    for b in 0..blocks.len()
        invariant
            params.valid(),
            blocks@.len() == spec_blocks.len(),
            forall|j: int| 0 <= j < blocks@.len() ==> (#[trigger] blocks@[j])@ == spec_blocks[j],
            forall|j: int| 0 <= j < blocks@.len() ==> (#[trigger] spec_blocks[j]).len() == params.k,
            block == block_id(b as nat),
            hiding.len() == b,
            forall|j: int| 0 <= j < b ==> (#[trigger] hiding[j]).len() == params.t,
            shards@ == shred_blocks(spec_blocks, hiding, params.n as nat, b as nat),
    {
        let r = fill_hiding(rng, params.t);
        assert(spec_blocks[b as int].len() == params.k);
        let mut part = match hecc_shred_block(params, block, &blocks[b], &r) {
            Ok(part) => part,
            Err(e) => {
                return Err(e);
            },
        };
        proof {
            let longer = hiding.push(r@);
            lemma_shred_blocks_ext(spec_blocks, hiding, longer, params.n as nat, b as nat);
            hiding = longer;
        }
        shards.append(&mut part);
        block = block.wrapping_add(1);
    }
    assert(hiding_fits(params, message@, hiding));
    assert(shards@ == shredding(params, message@, hiding));
    Ok(shards)
}

// ---------------------------------------------------------------------------
// Recovery
// ---------------------------------------------------------------------------

/// The shards of block `b`, in the order given.
pub open spec fn block_list(shards: Seq<HeccShard>, b: u32) -> Seq<HeccShard>
    decreases shards.len(),
{
    if shards.len() == 0 {
        Seq::empty()
    } else {
        let rest = block_list(shards.drop_last(), b);
        if shards.last().block == b {
            rest.push(shards.last())
        } else {
            rest
        }
    }
}

/// Some shard belongs to block `b`.
pub open spec fn has_block(shards: Seq<HeccShard>, b: u32) -> bool {
    exists|i: int| 0 <= i < shards.len() && shards[i].block == b
}

/// One of the pairs lies at the point `index`.
pub open spec fn has_index(pairs: Seq<(u8, usize)>, index: usize) -> bool {
    exists|j: int| 0 <= j < pairs.len() && pairs[j].1 == index
}

/// The pairs (value, point) that the scan of a block's shards collects: those
/// with an index that is not zero and has not occurred before, in the order
/// met, until there are `need` of them.
pub open spec fn picked(list: Seq<HeccShard>, need: nat) -> Seq<(u8, usize)>
    decreases list.len(),
{
    if list.len() == 0 {
        Seq::empty()
    } else {
        let rest = picked(list.drop_last(), need);
        let shard = list.last();
        if rest.len() < need && shard.index != 0 && !has_index(rest, shard.index as usize) {
            rest.push((shard.value, shard.index as usize))
        } else {
            rest
        }
    }
}

/// What the shards `list` of block `b` give: the K message bytes of the
/// block, decoded from the pairs that the scan collects, or the reason why
/// not. Where the scan ends with fewer than K + T pairs, their number is
/// reported.
pub open spec fn list_outcome(params: HeccParams, b: u32, list: Seq<HeccShard>) -> Result<
    Seq<u8>,
    HeccPipelineError,
> {
    let need = (params.k + params.t) as nat;
    let pairs = picked(list, need);
    if pairs.len() < need {
        Err(
            HeccPipelineError::NotEnoughShards {
                block: b,
                have: pairs.len() as usize,
                need: need as usize,
            },
        )
    } else {
        match decoding(pairs, params.k as nat, params.t as nat) {
            Ok((m, _)) => Ok(m),
            Err(_) => Err(HeccPipelineError::InvalidParams),
        }
    }
}

/// The payload recovered from the blocks with an index below `upto`, in
/// ascending order of the index, or the failure of the first block that
/// fails. Indices that no shard carries are passed over.
pub open spec fn recovered_upto(params: HeccParams, shards: Seq<HeccShard>, upto: nat) -> Result<
    Seq<u8>,
    HeccPipelineError,
>
    decreases upto,
{
    if upto == 0 {
        Ok(Seq::empty())
    } else {
        let b = (upto - 1) as u32;
        match recovered_upto(params, shards, (upto - 1) as nat) {
            Err(e) => Err(e),
            Ok(payload) => if !has_block(shards, b) {
                Ok(payload)
            } else {
                match list_outcome(params, b, block_list(shards, b)) {
                    Err(e) => Err(e),
                    Ok(m) => Ok(payload + m),
                }
            },
        }
    }
}

/// The message that a payload frames: the bytes behind the header, as many as
/// the header says.
pub open spec fn unframed(payload: Seq<u8>) -> Result<Seq<u8>, HeccPipelineError> {
    if payload.len() < 4 {
        Err(HeccPipelineError::InvalidHeader)
    } else {
        let len = be32_value(payload.subrange(0, 4));
        if payload.len() < 4 + len {
            Err(HeccPipelineError::InvalidHeader)
        } else {
            Ok(payload.subrange(4, 4 + len as int))
        }
    }
}

/// What recovery returns.
pub open spec fn recovering(params: HeccParams, shards: Seq<HeccShard>) -> Result<
    Seq<u8>,
    HeccPipelineError,
> {
    if !params.valid() {
        Err(HeccPipelineError::InvalidParams)
    } else {
        match recovered_upto(params, shards, 0x1_0000_0000) {
            Err(e) => Err(e),
            Ok(payload) => unframed(payload),
        }
    }
}

/// A block that no shard belongs to has an empty list.
proof fn lemma_block_list_absent(shards: Seq<HeccShard>, b: u32)
    requires
        !has_block(shards, b),
    ensures
        block_list(shards, b) == Seq::<HeccShard>::empty(),
    decreases shards.len(),
{
    if shards.len() > 0 {
        assert(shards[shards.len() - 1].block != b);
        assert forall|i: int| 0 <= i < shards.drop_last().len() implies shards.drop_last()[i].block
            != b by {
            assert(shards[i].block != b);
        }
        lemma_block_list_absent(shards.drop_last(), b);
    }
}

/// Once the scan has `need` pairs it takes no more.
proof fn lemma_picked_full(list: Seq<HeccShard>, need: nat, i: int)
    requires
        0 <= i <= list.len(),
        picked(list.take(i), need).len() >= need,
    ensures
        picked(list, need) == picked(list.take(i), need),
    decreases list.len() - i,
{
    if i < list.len() {
        assert(list.take(i + 1).drop_last() =~= list.take(i));
        lemma_picked_full(list, need, i + 1);
    } else {
        assert(list.take(i) =~= list);
    }
}

/// Blocks that no shard belongs to add nothing.
proof fn lemma_recovered_skip(params: HeccParams, shards: Seq<HeccShard>, lo: nat, hi: nat)
    requires
        lo <= hi <= 0x1_0000_0000,
        forall|b: u32| lo <= b < hi ==> !has_block(shards, b),
    ensures
        recovered_upto(params, shards, hi) == recovered_upto(params, shards, lo),
    decreases hi - lo,
{
    if lo < hi {
        lemma_recovered_skip(params, shards, lo, (hi - 1) as nat);
        assert(!has_block(shards, (hi - 1) as u32));
    }
}

/// A failure stays.
pub proof fn lemma_recovered_failed(params: HeccParams, shards: Seq<HeccShard>, lo: nat, hi: nat)
    requires
        lo <= hi,
        recovered_upto(params, shards, lo) is Err,
    ensures
        recovered_upto(params, shards, hi) == recovered_upto(params, shards, lo),
    decreases hi - lo,
{
    if lo < hi {
        lemma_recovered_failed(params, shards, lo, (hi - 1) as nat);
    }
}

/// Where the keys are the blocks that occur, in ascending order, no block
/// occurs between one key and the next.
proof fn lemma_no_block_before(shards: Seq<HeccShard>, keys: Seq<u32>, at: int, done: nat)
    requires
        forall|i: int, j: int| 0 <= i < j < keys.len() ==> keys[i] < keys[j],
        forall|b: u32| has_block(shards, b) ==> keys.contains(b),
        0 <= at <= keys.len(),
        at == 0 ==> done == 0,
        at > 0 ==> done == keys[at - 1] + 1,
    ensures
        forall|b: u32|
            done <= b && (at < keys.len() ==> b < keys[at]) ==> !has_block(shards, b),
{
    assert forall|b: u32| done <= b && (at < keys.len() ==> b < keys[at]) implies !has_block(
        shards,
        b,
    ) by {
        if has_block(shards, b) {
            assert(keys.contains(b));
            let j = choose|j: int| 0 <= j < keys.len() && keys[j] == b;
            if j < at {
                if j < at - 1 {
                    assert(keys[j] < keys[at - 1]);
                }
            } else if j > at {
                assert(keys[at] < keys[j]);
            }
        }
    }
}

/// Sorts the shards by block: each block's shards in the order given.
fn group_by_block(shards: &[HeccShard]) -> (by_block: BTreeMap<u32, Vec<HeccShard>>)
    ensures
        forall|b: u32| by_block@.contains_key(b) <==> has_block(shards@, b),
        forall|b: u32| #[trigger]
            by_block@.contains_key(b) ==> by_block@[b]@ == block_list(shards@, b),
{
    let mut by_block: BTreeMap<u32, Vec<HeccShard>> = BTreeMap::new();
    for i in 0..shards.len()
        invariant
            forall|b: u32| by_block@.contains_key(b) <==> has_block(shards@.take(i as int), b),
            forall|b: u32| #[trigger]
                by_block@.contains_key(b) ==> by_block@[b]@ == block_list(
                    shards@.take(i as int),
                    b,
                ),
    {
        let shard = shards[i];
        let ghost before = shards@.take(i as int);
        let ghost after = shards@.take(i + 1);
        let ghost old_map = by_block@;
        proof {
            lemma_block_keys_ordered();
            assert(after.drop_last() =~= before);
            assert(after.last() == shard);
            assert forall|b: u32| has_block(after, b) <==> (has_block(before, b) || b
                == shard.block) by {
                if has_block(before, b) {
                    let j = choose|j: int| 0 <= j < before.len() && before[j].block == b;
                    assert(after[j].block == b);
                }
                if b == shard.block {
                    assert(after[i as int].block == b);
                }
                if has_block(after, b) {
                    let j = choose|j: int| 0 <= j < after.len() && after[j].block == b;
                    if j < i {
                        assert(before[j].block == b);
                    }
                }
            }
            if !has_block(before, shard.block) {
                lemma_block_list_absent(before, shard.block);
            }
        }
        let mut list = match by_block.remove(&shard.block) {
            Some(list) => list,
            None => Vec::new(),
        };
        assert(list@ == block_list(before, shard.block));
        list.push(shard);
        by_block.insert(shard.block, list);
        assert(by_block@ =~= old_map.insert(shard.block, list));
    }
    assert(shards@.take(shards@.len() as int) =~= shards@);
    by_block
}

/// Recovers the K message bytes of block `block` from its shards.
fn recover_block(params: HeccParams, block: u32, list: &Vec<HeccShard>) -> (result: Result<
    Vec<u8>,
    HeccPipelineError,
>)
    requires
        params.valid(),
    ensures
        match result {
            Ok(m) => list_outcome(params, block, list@) == Ok::<Seq<u8>, HeccPipelineError>(m@),
            Err(e) => list_outcome(params, block, list@) == Err::<Seq<u8>, HeccPipelineError>(e),
        },
{
    let need = params.k + params.t;
    let mut seen = [false;256];
    let mut pairs: Vec<(u8, usize)> = Vec::with_capacity(need);
    let mut i: usize = 0;
    while i < list.len() && pairs.len() < need
        invariant
            i <= list@.len(),
            pairs@ == picked(list@.take(i as int), need as nat),
            forall|x: int| 0 <= x < 256 ==> seen@[x] == has_index(pairs@, x as usize),
        decreases list@.len() - i,
    {
        let shard = list[i];
        let idx = shard.index as usize;
        let ghost old_pairs = pairs@;
        proof {
            assert(list@.take(i + 1).drop_last() =~= list@.take(i as int));
            assert(list@.take(i + 1).last() == shard);
        }
        if !(idx == 0 || idx > 255 || seen[idx]) {
            seen[idx] = true;
            pairs.push((shard.value, idx));
            proof {
                assert(pairs@[old_pairs.len() as int].1 == idx);
                assert forall|x: int| 0 <= x < 256 implies seen@[x] == has_index(
                    pairs@,
                    x as usize,
                ) by {
                    if has_index(old_pairs, x as usize) {
                        let j = choose|j: int| 0 <= j < old_pairs.len() && old_pairs[j].1 == x;
                        assert(pairs@[j].1 == x);
                    }
                    if has_index(pairs@, x as usize) && x != idx {
                        let j = choose|j: int| 0 <= j < pairs@.len() && pairs@[j].1 == x;
                        assert(old_pairs[j].1 == x);
                    }
                }
            }
        }
        i += 1;
    }
    proof {
        if i < list@.len() {
            lemma_picked_full(list@, need as nat, i as int);
        } else {
            assert(list@.take(i as int) =~= list@);
        }
    }
    if pairs.len() < need {
        return Err(HeccPipelineError::NotEnoughShards { block, have: pairs.len(), need });
    }
    match hecc_decode(&pairs, params.k, params.t) {
        Ok((m, _)) => Ok(m),
        Err(_) => Err(HeccPipelineError::InvalidParams),
    }
}

/// Reads the header of a recovered payload and returns the message behind it.
fn unframe(payload: &Vec<u8>) -> (result: Result<Vec<u8>, HeccPipelineError>)
    ensures
        match result {
            Ok(message) => unframed(payload@) == Ok::<Seq<u8>, HeccPipelineError>(message@),
            Err(e) => unframed(payload@) == Err::<Seq<u8>, HeccPipelineError>(e),
        },
{
    if payload.len() < 4 {
        return Err(HeccPipelineError::InvalidHeader);
    }
    let header: u32 = (payload[0] as u32) * 0x100_0000 + (payload[1] as u32) * 0x1_0000 + (
    payload[2] as u32) * 0x100 + (payload[3] as u32);
    let len = header as usize;
    let total = payload.len();
    if total - 4 < len {
        return Err(HeccPipelineError::InvalidHeader);
    }
    let mut message: Vec<u8> = Vec::with_capacity(len);
    for i in 0..len
        invariant
            total == payload@.len(),
            4 + len <= total,
            message@ == payload@.subrange(4, 4 + i),
    {
        message.push(payload[4 + i]);
        assert(message@ =~= payload@.subrange(4, 4 + i + 1));
    }
    Ok(message)
}

/// Recovers the message from shards: each block is decoded from the first
/// K + T of its shards that lie at different points, the blocks are put
/// together in ascending order of their index, and the frame is taken off.
pub fn hecc_recover_bytes(params: HeccParams, shards: &[HeccShard]) -> (result: Result<
    Vec<u8>,
    HeccPipelineError,
>)
    ensures
        match result {
            Ok(message) => recovering(params, shards@) == Ok::<Seq<u8>, HeccPipelineError>(
                message@,
            ),
            Err(e) => recovering(params, shards@) == Err::<Seq<u8>, HeccPipelineError>(e),
        },
{
    if params.validate().is_err() {
        return Err(HeccPipelineError::InvalidParams);
    }
    let by_block = group_by_block(shards);

    let mut recovered: Vec<u8> = Vec::new();
    let ghost all = by_block.iter().remaining();
    let ghost keys = all.map_values(|kv: (&u32, &Vec<HeccShard>)| *kv.0);
    let ghost mut done: nat = 0;
    proof {
        lemma_block_keys_ordered();
        assert forall|b: u32| has_block(shards@, b) implies keys.contains(b) by {
            assert(by_block@.contains_key(b));
            assert(all.contains((&b, &by_block@[b])));
            let i = choose|i: int| 0 <= i < all.len() && all[i] == (&b, &by_block@[b]);
            assert(keys[i] == b);
        }
        assert forall|i: int| 0 <= i < keys.len() implies has_block(shards@, #[trigger] keys[i])
            && (*all[i].1)@ == block_list(shards@, keys[i]) by {
            assert(by_block@.contains_key(*all[i].0));
            assert(by_block@[*all[i].0] == *all[i].1);
        }
    }
    for kv in it: by_block.iter()
        invariant
            params.valid(),
            it.seq() == all,
            keys == all.map_values(|kv: (&u32, &Vec<HeccShard>)| *kv.0),
            increasing_seq(keys),
            forall|b: u32| has_block(shards@, b) ==> keys.contains(b),
            forall|i: int|
                0 <= i < keys.len() ==> has_block(shards@, #[trigger] keys[i]) && (*all[i].1)@
                    == block_list(shards@, keys[i]),
            done <= 0x1_0000_0000,
            it.index() == 0 ==> done == 0,
            it.index() > 0 ==> done == keys[it.index() - 1] + 1,
            recovered_upto(params, shards@, done) == Ok::<Seq<u8>, HeccPipelineError>(recovered@),
    {
        let (block, list) = kv;
        let ghost at = it.index();
        proof {
            assert(0 <= at < all.len());
            assert(*block == keys[at]);
            lemma_keys_ascend(keys);
            lemma_no_block_before(shards@, keys, at, done);
            lemma_recovered_skip(params, shards@, done, *block as nat);
        }
        let mut m = match recover_block(params, *block, list) {
            Ok(m) => m,
            Err(e) => {
                proof {
                    lemma_recovered_failed(params, shards@, (*block + 1) as nat, 0x1_0000_0000);
                }
                return Err(e);
            },
        };
        recovered.append(&mut m);
        proof {
            done = (*block + 1) as nat;
        }
    }
    proof {
        lemma_keys_ascend(keys);
        lemma_no_block_before(shards@, keys, keys.len() as int, done);
        lemma_recovered_skip(params, shards@, done, 0x1_0000_0000);
    }
    unframe(&recovered)
}

} // verus!
