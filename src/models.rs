//! Records of the market domain and of the storage layer. Times are
//! milliseconds since the Unix epoch, UTC.
use vstd::prelude::*;

verus! {

/// One listing of the exchange.
#[derive(Debug, Clone)]
pub struct MarketItem {
    pub id: String,
    pub name: String,
    pub price: i64,
    pub quantity: i32,
    pub seller_name: Option<String>,
    pub category: Option<String>,
    pub rarity: Option<i32>,
    pub updated_at: i64,
}

/// One recorded price of an item.
#[derive(Debug, Clone)]
pub struct PriceHistory {
    pub id: i64,
    pub item_id: String,
    pub price: i64,
    pub quantity: i32,
    pub recorded_at: i64,
}

/// A captured payload with where and when it was seen.
#[derive(Debug, Clone)]
pub struct RawPacketData {
    pub timestamp: i64,
    pub source_ip: String,
    pub dest_ip: String,
    pub source_port: u16,
    pub dest_port: u16,
    pub payload: Vec<u8>,
}

/// The kinds of exchange message.
#[derive(Debug, Clone, Copy, PartialEq, Eq, Structural)]
pub enum MarketPacketType {
    ItemList,
    ItemDetail,
    PriceUpdate,
    TransactionComplete,
    Unknown,
}

/// An exchange message with the items it lists.
#[derive(Debug, Clone)]
pub struct MarketPacket {
    pub packet_type: MarketPacketType,
    pub items: Vec<MarketItem>,
    pub timestamp: i64,
}

/// Row counts of the store.
#[derive(Debug, Clone, Copy, PartialEq, Eq, Structural)]
pub struct DatabaseStats {
    pub total_items: usize,
    pub total_records: usize,
}

/// The payload of one captured TCP segment.
#[derive(Debug, Clone)]
pub struct PacketInfo {
    pub payload: Vec<u8>,
}

} // verus!
