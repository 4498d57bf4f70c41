use vstd::prelude::*;
use crate::chain::{Block, Log};
use crate::decode::{SwapEvent, SwapView};
use crate::text::{
    be_signed, hex_prefixed, hex_text, int_text, lemma_hex_text_plain, lemma_int_text_plain,
    lemma_nat_text_plain, nat_text, plain_text, signed_decimal, unsigned_decimal,
};

verus! {

#[verifier::external_type_specification]
#[verifier::external_body]
pub struct ExJsonError(serde_json::Error);

/// The flat record appended to the queue for one `Swap` event.
pub struct QueueRecord {
    pub address: String,
    pub sender: String,
    pub recipient: String,
    pub amount0: String,
    pub amount1: String,
    pub liquidity: String,
    pub timestamp: u64,
}

pub struct RecordView {
    pub address: Seq<char>,
    pub sender: Seq<char>,
    pub recipient: Seq<char>,
    pub amount0: Seq<char>,
    pub amount1: Seq<char>,
    pub liquidity: Seq<char>,
    pub timestamp: nat,
}

impl View for QueueRecord {
    type V = RecordView;

    open spec fn view(&self) -> RecordView {
        RecordView {
            address: self.address@,
            sender: self.sender@,
            recipient: self.recipient@,
            amount0: self.amount0@,
            amount1: self.amount1@,
            liquidity: self.liquidity@,
            timestamp: self.timestamp as nat,
        }
    }
}

/// The record of a `Swap` event: the emitting address and the two parties as
/// `0x` hex, the amounts as signed decimals, the liquidity as an unsigned
/// decimal, and the timestamp of the block that holds the log.
pub open spec fn record_of(log: Log, swap: SwapView, timestamp: u64) -> RecordView {
    RecordView {
        address: hex_text(log.address@),
        sender: hex_text(swap.sender),
        recipient: hex_text(swap.recipient),
        amount0: int_text(be_signed(swap.amount0)),
        amount1: int_text(be_signed(swap.amount1)),
        liquidity: nat_text(swap.liquidity),
        timestamp: timestamp as nat,
    }
}

pub open spec fn quoted(s: Seq<char>) -> Seq<char> {
    seq!['"'] + s + seq!['"']
}

pub open spec fn member(name: Seq<char>, value: Seq<char>) -> Seq<char> {
    quoted(name) + seq![':'] + value
}

/// The JSON object text of a record: members in key order, no whitespace,
/// text fields as strings and the timestamp as a number.
pub open spec fn record_text(r: RecordView) -> Seq<char> {
    seq!['{'] + member("address"@, quoted(r.address)) + seq![','] + member(
        "amount0"@,
        quoted(r.amount0),
    ) + seq![','] + member("amount1"@, quoted(r.amount1)) + seq![','] + member(
        "liquidity"@,
        quoted(r.liquidity),
    ) + seq![','] + member("recipient"@, quoted(r.recipient)) + seq![','] + member(
        "sender"@,
        quoted(r.sender),
    ) + seq![','] + member("timestamp"@, nat_text(r.timestamp)) + seq!['}']
}

/// Why a record could not be written.
#[derive(Debug, Clone, Copy, PartialEq, Eq, Structural)]
pub enum RecordError {
    Serialization,
}

/// Relies on serde_json::to_string of a map of strings and one `u64`: it
/// writes the members in key order without whitespace, the strings quoted and,
/// holding no character that needs escaping, as they are; writing into memory
/// does not fail.
#[verifier::external_body]
fn record_json(r: &QueueRecord) -> (res: Result<String, serde_json::Error>)
    requires
        plain_text(r.address@),
        plain_text(r.sender@),
        plain_text(r.recipient@),
        plain_text(r.amount0@),
        plain_text(r.amount1@),
        plain_text(r.liquidity@),
    ensures
        res is Ok,
        res matches Ok(s) ==> s@ == record_text(r@),
{
    let mut m = serde_json::Map::new();
    m.insert("address".to_string(), r.address.clone().into());
    m.insert("sender".to_string(), r.sender.clone().into());
    m.insert("recipient".to_string(), r.recipient.clone().into());
    m.insert("amount0".to_string(), r.amount0.clone().into());
    m.insert("amount1".to_string(), r.amount1.clone().into());
    m.insert("liquidity".to_string(), r.liquidity.clone().into());
    m.insert("timestamp".to_string(), r.timestamp.into());
    serde_json::to_string(&serde_json::Value::Object(m))
}

/// Builds the record of a `Swap` event found in a log of `block`.
pub fn swap_record(log: &Log, swap: &SwapEvent, block: &Block) -> (r: QueueRecord)
    requires
        swap.wf(),
    ensures
        r@ == record_of(*log, swap@, block.timestamp),
        r.timestamp == block.timestamp,
{
    QueueRecord {
        address: hex_prefixed(log.address.as_slice()),
        sender: hex_prefixed(swap.sender.as_slice()),
        recipient: hex_prefixed(swap.recipient.as_slice()),
        amount0: signed_decimal(swap.amount0.as_slice()),
        amount1: signed_decimal(swap.amount1.as_slice()),
        liquidity: unsigned_decimal(swap.liquidity),
        timestamp: block.timestamp,
    }
}

/// The queue text of a `Swap` event found in a log of `block`. Writing the
/// record of a decoded event does not fail; a failure of the serializer would
/// come back as an error, never as partial text.
pub fn serialize_swap_event(log: &Log, swap: &SwapEvent, block: &Block) -> (r: Result<
    String,
    RecordError,
>)
    requires
        swap.wf(),
    ensures
        r is Ok,
        r matches Ok(s) ==> s@ == record_text(record_of(*log, swap@, block.timestamp)),
{
    let record = swap_record(log, swap, block);
    proof {
        lemma_hex_text_plain(log.address@);
        lemma_hex_text_plain(swap.sender@);
        lemma_hex_text_plain(swap.recipient@);
        lemma_int_text_plain(be_signed(swap.amount0@));
        lemma_int_text_plain(be_signed(swap.amount1@));
        lemma_nat_text_plain(swap.liquidity as nat);
    }
    match record_json(&record) {
        Ok(s) => Ok(s),
        Err(_) => Err(RecordError::Serialization),
    }
}

} // verus!
