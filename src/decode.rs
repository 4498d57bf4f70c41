use vstd::prelude::*;
use crate::chain::{Block, ChainSegment, Log};
use crate::text::be_nat;
use alloy_sol_types::SolType;

verus! {

/// Canonical signature of the pool's `Swap` event.
pub const SWAP_SIGNATURE: &'static str = "Swap(address,address,int256,int256,uint160,uint128,int24)";

/// The Keccak-256 digest of the UTF-8 bytes of a text.
pub uninterp spec fn keccak_of(text: Seq<char>) -> Seq<u8>;

/// Relies on alloy_primitives::keccak256: the 32-byte digest of the signature
/// text, which is the first topic of every log of that event.
#[verifier::external_body]
fn event_topic(signature: &str) -> (r: Vec<u8>)
    ensures
        r@ == keccak_of(signature@),
        r@.len() == 32,
{
    alloy_primitives::keccak256(signature.as_bytes()).to_vec()
}

/// The non-indexed fields of a `Swap` payload that records use.
struct SwapAmounts {
    amount0: Vec<u8>,
    amount1: Vec<u8>,
    liquidity: u128,
}

/// A payload that decodes, with validation, as the `Swap` data tuple
/// `(int256, int256, uint160, uint128, int24)`: exactly five words, the
/// unsigned words zero above their width, the `int24` sign-extended.
pub open spec fn swap_data_valid(d: Seq<u8>) -> bool {
    &&& d.len() == 160
    &&& forall|i: int| 64 <= i < 76 ==> d[i] == 0
    &&& forall|i: int| 96 <= i < 112 ==> d[i] == 0
    &&& forall|i: int| 128 <= i < 157 ==> #[trigger] d[i] == (if d[157] >= 128 { 255u8 } else { 0u8 })
}

/// Relies on alloy_sol_types' `SolType::abi_decode_sequence` with validation
/// on the `Swap` data tuple: it succeeds exactly on valid payloads, and gives
/// the two `int256` words and the `uint128` value.
#[verifier::external_body]
fn decode_swap_data(data: &[u8]) -> (r: Option<SwapAmounts>)
    ensures
        r is Some <==> swap_data_valid(data@),
        r matches Some(a) ==> a.amount0@ == data@.subrange(0, 32) && a.amount1@ == data@.subrange(
            32,
            64,
        ) && a.liquidity as nat == be_nat(data@.subrange(112, 128)),
{
    <(
        alloy_sol_types::sol_data::Int<256>,
        alloy_sol_types::sol_data::Int<256>,
        alloy_sol_types::sol_data::Uint<160>,
        alloy_sol_types::sol_data::Uint<128>,
        alloy_sol_types::sol_data::Int<24>,
    ) as SolType>::abi_decode_sequence(data, true).ok().map(|(a0, a1, _, liquidity, _)| SwapAmounts {
        amount0: a0.to_be_bytes::<32>().to_vec(),
        amount1: a1.to_be_bytes::<32>().to_vec(),
        liquidity,
    })
}

/// The first topic of every `Swap` log.
pub fn swap_event_topic() -> (r: Vec<u8>)
    ensures
        r@ == swap_topic(),
        r@.len() == 32,
{
    event_topic(SWAP_SIGNATURE)
}

/// A decoded `Swap` event, its words kept as the payload holds them.
pub struct SwapEvent {
    pub sender: Vec<u8>,
    pub recipient: Vec<u8>,
    pub amount0: Vec<u8>,
    pub amount1: Vec<u8>,
    pub liquidity: u128,
}

pub struct SwapView {
    pub sender: Seq<u8>,
    pub recipient: Seq<u8>,
    pub amount0: Seq<u8>,
    pub amount1: Seq<u8>,
    pub liquidity: nat,
}

impl View for SwapEvent {
    type V = SwapView;

    open spec fn view(&self) -> SwapView {
        SwapView {
            sender: self.sender@,
            recipient: self.recipient@,
            amount0: self.amount0@,
            amount1: self.amount1@,
            liquidity: self.liquidity as nat,
        }
    }
}

impl SwapEvent {
    /// Both amounts are full 32-byte words.
    pub open spec fn wf(&self) -> bool {
        self.amount0@.len() == 32 && self.amount1@.len() == 32
    }
}

/// The events of the pool interface that logs decode into.
pub enum PoolEvent {
    Swap(SwapEvent),
}

pub enum EventView {
    Swap(SwapView),
}

impl View for PoolEvent {
    type V = EventView;

    open spec fn view(&self) -> EventView {
        match self {
            PoolEvent::Swap(s) => EventView::Swap(s@),
        }
    }
}

/// A decoded event with the position of its log: block index, transaction
/// index within the block, log index within the receipt.
pub struct DecodedLog {
    pub block: usize,
    pub transaction: usize,
    pub log: usize,
    pub event: PoolEvent,
}

impl DecodedLog {
    pub open spec fn wf(&self) -> bool {
        match self.event {
            PoolEvent::Swap(s) => s.wf(),
        }
    }
}

pub struct DecodedView {
    pub block: int,
    pub transaction: int,
    pub log: int,
    pub event: EventView,
}

impl View for DecodedLog {
    type V = DecodedView;

    open spec fn view(&self) -> DecodedView {
        DecodedView {
            block: self.block as int,
            transaction: self.transaction as int,
            log: self.log as int,
            event: self.event@,
        }
    }
}

pub open spec fn views_of(r: Seq<DecodedLog>) -> Seq<DecodedView> {
    r.map_values(|d: DecodedLog| d@)
}

/// First topic of every `Swap` log.
pub open spec fn swap_topic() -> Seq<u8> {
    keccak_of(SWAP_SIGNATURE@)
}

/// What a log decodes to: a `Swap` when its first topic is the event's topic,
/// it has exactly the two indexed address topics after it, and its payload
/// is valid; nothing
/// otherwise.
pub open spec fn decode_log_spec(log: Log, topic: Seq<u8>) -> Option<EventView> {
    let topics = log.topics@;
    if topics.len() == 3 && topics[0]@ == topic && topics[1]@.len() == 32 && topics[2]@.len()
        == 32 && swap_data_valid(log.data@) {
        Some(
            EventView::Swap(
                SwapView {
                    sender: topics[1]@.subrange(12, 32),
                    recipient: topics[2]@.subrange(12, 32),
                    amount0: log.data@.subrange(0, 32),
                    amount1: log.data@.subrange(32, 64),
                    liquidity: be_nat(log.data@.subrange(112, 128)),
                },
            ),
        )
    } else {
        None
    }
}

/// Events of the first `n` logs of one receipt, in log order.
pub open spec fn log_events(b: int, t: int, logs: Seq<Log>, n: nat, topic: Seq<u8>) -> Seq<
    DecodedView,
>
    decreases n,
{
    if n == 0 {
        seq![]
    } else {
        let k = (n - 1) as nat;
        log_events(b, t, logs, k, topic) + match decode_log_spec(logs[k as int], topic) {
            Some(e) => seq![DecodedView { block: b, transaction: t, log: k as int, event: e }],
            None => seq![],
        }
    }
}

/// Events of the first `n` (transaction, receipt) pairs of one block.
pub open spec fn tx_events(b: int, block: Block, n: nat, topic: Seq<u8>) -> Seq<DecodedView>
    decreases n,
{
    if n == 0 {
        seq![]
    } else {
        let k = (n - 1) as nat;
        let logs = block.receipts@[k as int].logs@;
        tx_events(b, block, k, topic) + log_events(b, k as int, logs, logs.len(), topic)
    }
}

/// Events of the first `n` blocks, in block order.
pub open spec fn chain_events(blocks: Seq<Block>, n: nat, topic: Seq<u8>) -> Seq<DecodedView>
    decreases n,
{
    if n == 0 {
        seq![]
    } else {
        let k = (n - 1) as nat;
        let block = blocks[k as int];
        chain_events(blocks, k, topic) + tx_events(k as int, block, block.pair_count(), topic)
    }
}

/// Every event of a segment, in block, then transaction, then log order.
pub open spec fn segment_events(segment: ChainSegment) -> Seq<DecodedView> {
    chain_events(segment.blocks@, segment.blocks@.len(), swap_topic())
}

fn bytes_eq(a: &Vec<u8>, b: &Vec<u8>) -> (r: bool)
    ensures
        r == (a@ == b@),
{
    if a.len() != b.len() {
        return false;
    }
    let mut i: usize = 0;
    while i < a.len()
        invariant
            i <= a@.len(),
            a@.len() == b@.len(),
            forall|j: int| 0 <= j < i ==> a@[j] == b@[j],
        decreases a@.len() - i,
    {
        if a[i] != b[i] {
            return false;
        }
        i = i + 1;
    }
    assert(a@ =~= b@);
    true
}

fn copy_range(a: &Vec<u8>, lo: usize, hi: usize) -> (r: Vec<u8>)
    requires
        lo <= hi <= a@.len(),
    ensures
        r@ == a@.subrange(lo as int, hi as int),
{
    let mut r: Vec<u8> = Vec::new();
    let mut i: usize = lo;
    while i < hi
        invariant
            lo <= i <= hi <= a@.len(),
            r@ =~= a@.subrange(lo as int, i as int),
        decreases hi - i,
    {
        r.push(a[i]);
        i = i + 1;
    }
    r
}

/// Decodes one log against the pool interface; a log that matches no event
/// gives `None`.
pub fn decode_log(log: &Log, topic: &Vec<u8>) -> (r: Option<PoolEvent>)
    ensures
        match r {
            Some(e) => decode_log_spec(*log, topic@) == Some(e@),
            None => decode_log_spec(*log, topic@) is None,
        },
        r matches Some(PoolEvent::Swap(s)) ==> s.wf(),
{
    if log.topics.len() != 3 {
        return None;
    }
    if !bytes_eq(&log.topics[0], topic) {
        return None;
    }
    if log.topics[1].len() != 32 || log.topics[2].len() != 32 {
        return None;
    }
    match decode_swap_data(log.data.as_slice()) {
        None => None,
        Some(a) => Some(
            PoolEvent::Swap(
                SwapEvent {
                    sender: copy_range(&log.topics[1], 12, 32),
                    recipient: copy_range(&log.topics[2], 12, 32),
                    amount0: a.amount0,
                    amount1: a.amount1,
                    liquidity: a.liquidity,
                },
            ),
        ),
    }
}

/// Decodes every log of a segment against the pool interface, in block, then
/// transaction, then log order; logs that match no event are skipped.
pub fn decode_chain_into_events(chain: &ChainSegment) -> (r: Vec<DecodedLog>)
    ensures
        views_of(r@) == segment_events(*chain),
        forall|i: int| 0 <= i < r@.len() ==> (#[trigger] r@[i]).wf(),
{
    let topic = swap_event_topic();
    let ghost blocks = chain.blocks@;
    let mut out: Vec<DecodedLog> = Vec::new();
    let mut b: usize = 0;
    while b < chain.blocks.len()
        invariant
            b <= blocks.len(),
            blocks == chain.blocks@,
            topic@ == swap_topic(),
            views_of(out@) == chain_events(blocks, b as nat, topic@),
            forall|i: int| 0 <= i < out@.len() ==> (#[trigger] out@[i]).wf(),
        decreases blocks.len() - b,
    {
        let block = &chain.blocks[b];
        let pairs = block.pairs();
        let ghost before = views_of(out@);
        let mut t: usize = 0;
        while t < pairs
            invariant
                b < blocks.len(),
                *block == blocks[b as int],
                pairs == block.pair_count(),
                t <= pairs,
                before == chain_events(blocks, b as nat, topic@),
                views_of(out@) == before + tx_events(b as int, *block, t as nat, topic@),
                forall|i: int| 0 <= i < out@.len() ==> (#[trigger] out@[i]).wf(),
            decreases pairs - t,
        {
            let logs = &block.receipts[t].logs;
            let ghost mid = views_of(out@);
            let mut l: usize = 0;
            while l < logs.len()
                invariant
                    l <= logs@.len(),
                    mid == before + tx_events(b as int, *block, t as nat, topic@),
                    views_of(out@) == mid + log_events(b as int, t as int, logs@, l as nat, topic@),
                    forall|i: int| 0 <= i < out@.len() ==> (#[trigger] out@[i]).wf(),
                decreases logs@.len() - l,
            {
                let ghost prev = out@;
                match decode_log(&logs[l], &topic) {
                    Some(e) => {
                        out.push(DecodedLog { block: b, transaction: t, log: l, event: e });
                        assert(views_of(out@) =~= views_of(prev) + seq![out@.last()@]);
                    },
                    None => {},
                }
                l = l + 1;
                assert(views_of(out@) =~= mid + log_events(b as int, t as int, logs@, l as nat, topic@));
            }
            t = t + 1;
            assert(views_of(out@) =~= before + tx_events(b as int, *block, t as nat, topic@));
        }
        b = b + 1;
        assert(views_of(out@) =~= chain_events(blocks, b as nat, topic@));
    }
    out
}

/// The log at a position of a segment's blocks.
pub open spec fn log_at(blocks: Seq<Block>, b: int, t: int, l: int) -> Log {
    blocks[b].receipts@[t].logs@[l]
}

/// A position that the segment holds: a block, one of its (transaction,
/// receipt) pairs, and a log of that receipt.
pub open spec fn valid_position(blocks: Seq<Block>, b: int, t: int, l: int) -> bool {
    &&& 0 <= b < blocks.len()
    &&& 0 <= t < blocks[b].pair_count()
    &&& 0 <= l < blocks[b].receipts@[t].logs@.len()
}

/// The event stands at a position of the segment whose log decodes to it.
pub open spec fn found_at(blocks: Seq<Block>, d: DecodedView, topic: Seq<u8>) -> bool {
    valid_position(blocks, d.block, d.transaction, d.log) && decode_log_spec(
        log_at(blocks, d.block, d.transaction, d.log),
        topic,
    ) == Some(d.event)
}

/// Strict order of positions: block, then transaction, then log.
pub open spec fn comes_before(x: DecodedView, y: DecodedView) -> bool {
    x.block < y.block || (x.block == y.block && x.transaction < y.transaction) || (x.block
        == y.block && x.transaction == y.transaction && x.log < y.log)
}

pub open spec fn ordered(s: Seq<DecodedView>) -> bool {
    forall|i: int, j: int| 0 <= i < j < s.len() ==> comes_before(#[trigger] s[i], #[trigger] s[j])
}

proof fn lemma_log_events(b: int, t: int, logs: Seq<Log>, n: nat, topic: Seq<u8>)
    requires
        n <= logs.len(),
    ensures
        ordered(log_events(b, t, logs, n, topic)),
        forall|i: int|
            0 <= i < log_events(b, t, logs, n, topic).len() ==> {
                let e = #[trigger] log_events(b, t, logs, n, topic)[i];
                e.block == b && e.transaction == t && 0 <= e.log < n && decode_log_spec(
                    logs[e.log],
                    topic,
                ) == Some(e.event)
            },
    decreases n,
{
    if n > 0 {
        lemma_log_events(b, t, logs, (n - 1) as nat, topic);
    }
}

proof fn lemma_tx_events(b: int, block: Block, n: nat, topic: Seq<u8>)
    requires
        n <= block.pair_count(),
    ensures
        ordered(tx_events(b, block, n, topic)),
        forall|i: int|
            0 <= i < tx_events(b, block, n, topic).len() ==> {
                let e = #[trigger] tx_events(b, block, n, topic)[i];
                e.block == b && 0 <= e.transaction < n && 0 <= e.log
                    < block.receipts@[e.transaction].logs@.len() && decode_log_spec(
                    block.receipts@[e.transaction].logs@[e.log],
                    topic,
                ) == Some(e.event)
            },
    decreases n,
{
    if n > 0 {
        let k = (n - 1) as nat;
        let logs = block.receipts@[k as int].logs@;
        lemma_tx_events(b, block, k, topic);
        lemma_log_events(b, k as int, logs, logs.len(), topic);
    }
}

proof fn lemma_chain_events(blocks: Seq<Block>, n: nat, topic: Seq<u8>)
    requires
        n <= blocks.len(),
    ensures
        ordered(chain_events(blocks, n, topic)),
        forall|i: int|
            0 <= i < chain_events(blocks, n, topic).len() ==> {
                let e = #[trigger] chain_events(blocks, n, topic)[i];
                e.block < n && found_at(blocks, e, topic)
            },
    decreases n,
{
    if n > 0 {
        let k = (n - 1) as nat;
        let block = blocks[k as int];
        lemma_chain_events(blocks, k, topic);
        lemma_tx_events(k as int, block, block.pair_count(), topic);
    }
}

/// Every event of a segment stands at a position of the segment whose log
/// decodes to that event.
pub proof fn lemma_events_found(segment: ChainSegment)
    ensures
        forall|i: int|
            0 <= i < segment_events(segment).len() ==> found_at(
                segment.blocks@,
                #[trigger] segment_events(segment)[i],
                swap_topic(),
            ),
{
    lemma_chain_events(segment.blocks@, segment.blocks@.len(), swap_topic());
}

/// Decoding yields events in block order, then transaction order, then log
/// order within a receipt.
pub proof fn lemma_decode_order(segment: ChainSegment)
    ensures
        ordered(segment_events(segment)),
{
    lemma_chain_events(segment.blocks@, segment.blocks@.len(), swap_topic());
}

/// A log whose first topic is not the signature hash of a known event never
/// appears among the decoded events.
pub proof fn lemma_foreign_topic_skipped(segment: ChainSegment, b: int, t: int, l: int)
    requires
        valid_position(segment.blocks@, b, t, l),
        log_at(segment.blocks@, b, t, l).topics@.len() == 0 || log_at(
            segment.blocks@,
            b,
            t,
            l,
        ).topics@[0]@ != swap_topic(),
    ensures
        forall|i: int|
            0 <= i < segment_events(segment).len() ==> {
                let e = #[trigger] segment_events(segment)[i];
                !(e.block == b && e.transaction == t && e.log == l)
            },
{
    lemma_events_found(segment);
}

/// A log whose topic count is not that of the event its first topic names
/// never appears among the decoded events.
pub proof fn lemma_wrong_topic_count_skipped(segment: ChainSegment, b: int, t: int, l: int)
    requires
        valid_position(segment.blocks@, b, t, l),
        log_at(segment.blocks@, b, t, l).topics@.len() != 3,
    ensures
        forall|i: int|
            0 <= i < segment_events(segment).len() ==> {
                let e = #[trigger] segment_events(segment)[i];
                !(e.block == b && e.transaction == t && e.log == l)
            },
{
    lemma_events_found(segment);
}

/// A log with the signature hash of a known event but a payload that does not
/// decode as that event's data never appears among the decoded events.
pub proof fn lemma_malformed_payload_skipped(segment: ChainSegment, b: int, t: int, l: int)
    requires
        valid_position(segment.blocks@, b, t, l),
        !swap_data_valid(log_at(segment.blocks@, b, t, l).data@),
    ensures
        forall|i: int|
            0 <= i < segment_events(segment).len() ==> {
                let e = #[trigger] segment_events(segment)[i];
                !(e.block == b && e.transaction == t && e.log == l)
            },
{
    lemma_events_found(segment);
}

/// Decoding two segments with the same blocks yields the same events: a
/// segment decoded twice gives identical sequences.
pub proof fn lemma_decode_deterministic(s1: ChainSegment, s2: ChainSegment)
    requires
        s1.blocks@ == s2.blocks@,
    ensures
        segment_events(s1) == segment_events(s2),
{
}

/// The position of an event once log `l` of receipt `t` of block `b` is
/// removed: later logs of that receipt move down by one.
pub open spec fn shifted(e: DecodedView, b: int, t: int, l: int) -> DecodedView {
    if e.block == b && e.transaction == t && e.log > l {
        DecodedView { log: e.log - 1, ..e }
    } else {
        e
    }
}

pub open spec fn shifted_all(s: Seq<DecodedView>, b: int, t: int, l: int) -> Seq<DecodedView> {
    s.map_values(|e: DecodedView| shifted(e, b, t, l))
}

proof fn lemma_shift_concat(x: Seq<DecodedView>, y: Seq<DecodedView>, b: int, t: int, l: int)
    ensures
        shifted_all(x + y, b, t, l) == shifted_all(x, b, t, l) + shifted_all(y, b, t, l),
{
    assert(shifted_all(x + y, b, t, l) =~= shifted_all(x, b, t, l) + shifted_all(y, b, t, l));
}

proof fn lemma_shift_untouched(s: Seq<DecodedView>, b: int, t: int, l: int)
    requires
        forall|i: int|
            0 <= i < s.len() ==> !((#[trigger] s[i]).block == b && s[i].transaction == t),
    ensures
        shifted_all(s, b, t, l) == s,
{
    assert(shifted_all(s, b, t, l) =~= s);
}

proof fn lemma_remove_log(b: int, t: int, logs: Seq<Log>, l: int, n: nat, topic: Seq<u8>)
    requires
        0 <= l < logs.len(),
        n <= logs.len(),
        decode_log_spec(logs[l], topic) is None,
    ensures
        log_events(b, t, logs.remove(l), if n <= l { n } else { (n - 1) as nat }, topic)
            == shifted_all(log_events(b, t, logs, n, topic), b, t, l),
    decreases n,
{
    let logs2 = logs.remove(l);
    if n == 0 {
        assert(shifted_all(log_events(b, t, logs, n, topic), b, t, l) =~= seq![]);
    } else {
        let k = (n - 1) as nat;
        lemma_remove_log(b, t, logs, l, k, topic);
        lemma_log_events(b, t, logs, k, topic);
        let piece = match decode_log_spec(logs[k as int], topic) {
            Some(e) => seq![DecodedView { block: b, transaction: t, log: k as int, event: e }],
            None => seq![],
        };
        lemma_shift_concat(log_events(b, t, logs, k, topic), piece, b, t, l);
        if n <= l {
            assert(logs2[k as int] == logs[k as int]);
            assert(shifted_all(piece, b, t, l) =~= piece);
        } else if n == l + 1 {
            assert(piece =~= seq![]);
            assert(shifted_all(piece, b, t, l) =~= seq![]);
            assert(log_events(b, t, logs, n, topic) =~= log_events(b, t, logs, k, topic));
        } else {
            let k2 = (k - 1) as nat;
            assert(logs2[k2 as int] == logs[k as int]);
            let piece2 = match decode_log_spec(logs2[k2 as int], topic) {
                Some(e) => seq![DecodedView { block: b, transaction: t, log: k2 as int, event: e }],
                None => seq![],
            };
            assert(shifted_all(piece, b, t, l) =~= piece2);
        }
    }
}

/// `block2` is `block1` with log `l` of receipt `t` removed.
pub open spec fn log_removed_in_block(block1: Block, block2: Block, t: int, l: int) -> bool {
    &&& block2.pair_count() == block1.pair_count()
    &&& 0 <= t < block1.pair_count()
    &&& 0 <= l < block1.receipts@[t].logs@.len()
    &&& block2.receipts@[t].logs@ == block1.receipts@[t].logs@.remove(l)
    &&& forall|k: int|
        0 <= k < block1.pair_count() && k != t ==> (#[trigger] block2.receipts@[k]).logs@
            == block1.receipts@[k].logs@
}

proof fn lemma_remove_log_in_block(
    b: int,
    block1: Block,
    block2: Block,
    t: int,
    l: int,
    n: nat,
    topic: Seq<u8>,
)
    requires
        log_removed_in_block(block1, block2, t, l),
        decode_log_spec(block1.receipts@[t].logs@[l], topic) is None,
        n <= block1.pair_count(),
    ensures
        tx_events(b, block2, n, topic) == shifted_all(tx_events(b, block1, n, topic), b, t, l),
    decreases n,
{
    if n == 0 {
        assert(shifted_all(tx_events(b, block1, n, topic), b, t, l) =~= seq![]);
    } else {
        let k = (n - 1) as nat;
        lemma_remove_log_in_block(b, block1, block2, t, l, k, topic);
        let logs1 = block1.receipts@[k as int].logs@;
        let logs2 = block2.receipts@[k as int].logs@;
        lemma_shift_concat(
            tx_events(b, block1, k, topic),
            log_events(b, k as int, logs1, logs1.len(), topic),
            b,
            t,
            l,
        );
        if k == t {
            lemma_remove_log(b, t, logs1, l, logs1.len(), topic);
        } else {
            lemma_log_events(b, k as int, logs1, logs1.len(), topic);
            lemma_shift_untouched(log_events(b, k as int, logs1, logs1.len(), topic), b, t, l);
        }
    }
}

proof fn lemma_remove_log_in_chain(
    blocks1: Seq<Block>,
    blocks2: Seq<Block>,
    b: int,
    t: int,
    l: int,
    n: nat,
    topic: Seq<u8>,
)
    requires
        blocks2.len() == blocks1.len(),
        0 <= b < blocks1.len(),
        log_removed_in_block(blocks1[b], blocks2[b], t, l),
        forall|i: int| 0 <= i < blocks1.len() && i != b ==> #[trigger] blocks2[i] == blocks1[i],
        decode_log_spec(log_at(blocks1, b, t, l), topic) is None,
        n <= blocks1.len(),
    ensures
        chain_events(blocks2, n, topic) == shifted_all(chain_events(blocks1, n, topic), b, t, l),
    decreases n,
{
    if n == 0 {
        assert(shifted_all(chain_events(blocks1, n, topic), b, t, l) =~= seq![]);
    } else {
        let k = (n - 1) as nat;
        lemma_remove_log_in_chain(blocks1, blocks2, b, t, l, k, topic);
        let block1 = blocks1[k as int];
        lemma_shift_concat(
            chain_events(blocks1, k, topic),
            tx_events(k as int, block1, block1.pair_count(), topic),
            b,
            t,
            l,
        );
        if k == b {
            lemma_remove_log_in_block(b, block1, blocks2[b], t, l, block1.pair_count(), topic);
        } else {
            lemma_tx_events(k as int, block1, block1.pair_count(), topic);
            lemma_shift_untouched(tx_events(k as int, block1, block1.pair_count(), topic), b, t, l);
        }
    }
}

/// Removing a log that decodes to no event from a segment leaves the other
/// events as they were: the same events in the same order, the later logs of
/// that receipt one index lower.
pub proof fn lemma_undecodable_log_removed(s1: ChainSegment, s2: ChainSegment, b: int, t: int, l: int)
    requires
        s2.blocks@.len() == s1.blocks@.len(),
        0 <= b < s1.blocks@.len(),
        log_removed_in_block(s1.blocks@[b], s2.blocks@[b], t, l),
        forall|i: int|
            0 <= i < s1.blocks@.len() && i != b ==> #[trigger] s2.blocks@[i] == s1.blocks@[i],
        decode_log_spec(log_at(s1.blocks@, b, t, l), swap_topic()) is None,
    ensures
        segment_events(s2) == shifted_all(segment_events(s1), b, t, l),
{
    lemma_remove_log_in_chain(s1.blocks@, s2.blocks@, b, t, l, s1.blocks@.len(), swap_topic());
}

} // verus!
