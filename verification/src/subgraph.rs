//! The typed read-only data model served by the orderbook subgraph: orders,
//! vaults, balance changes, trades and their query parameter types.

use vstd::prelude::*;

verus! {

/// A decimal integer, as the subgraph serves it.
#[derive(Debug, Clone)]
pub struct BigInt(pub String);

/// A hex-encoded byte string, as the subgraph serves it.
#[derive(Debug, Clone)]
pub struct Bytes(pub String);

/// A metadata document reference.
pub type RainMetaV1 = Bytes;

/// Page bounds of a listing query.
#[derive(Debug, Clone)]
pub struct PaginationQueryVariables {
    pub first: Option<i32>,
    pub skip: Option<i32>,
}

/// Page bounds of a listing query scoped under one entity.
#[derive(Debug, Clone)]
pub struct PaginationWithIdQueryVariables {
    pub first: Option<i32>,
    pub id: Bytes,
    pub skip: Option<i32>,
}

/// An orderbook contract.
#[derive(Debug, Clone)]
pub struct Orderbook {
    pub id: Bytes,
}

/// A token the subgraph knows.
#[derive(Debug, Clone)]
pub struct Erc20 {
    pub id: Bytes,
    pub address: Bytes,
    pub name: Option<String>,
    pub symbol: Option<String>,
    pub decimals: Option<BigInt>,
}

/// The transaction an event came from.
#[derive(Debug, Clone)]
pub struct Transaction {
    pub id: Bytes,
    pub from: Bytes,
    pub block_number: BigInt,
    pub timestamp: BigInt,
}

/// An order seen from a vault it reads or fills.
#[derive(Debug, Clone)]
pub struct OrderAsIO {
    pub id: Bytes,
    pub order_hash: Bytes,
    pub active: bool,
}

/// The vault a balance change touched.
#[derive(Debug, Clone)]
pub struct VaultBalanceChangeVault {
    pub id: Bytes,
    pub token: Erc20,
}

/// A balance change with its variant erased.
#[derive(Debug, Clone)]
pub struct VaultBalanceChangeUnwrapped {
    pub __typename: String,
    pub amount: BigInt,
    pub new_vault_balance: BigInt,
    pub old_vault_balance: BigInt,
    pub vault: VaultBalanceChangeVault,
    pub timestamp: BigInt,
    pub transaction: Transaction,
    pub orderbook: Orderbook,
}

/// A deposit into a vault.
#[derive(Debug, Clone)]
pub struct Deposit {
    pub id: Bytes,
    pub __typename: String,
    pub amount: BigInt,
    pub new_vault_balance: BigInt,
    pub old_vault_balance: BigInt,
    pub vault: VaultBalanceChangeVault,
    pub timestamp: BigInt,
    pub transaction: Transaction,
    pub orderbook: Orderbook,
}

/// A withdrawal from a vault.
#[derive(Debug, Clone)]
pub struct Withdrawal {
    pub id: Bytes,
    pub __typename: String,
    pub amount: BigInt,
    pub new_vault_balance: BigInt,
    pub old_vault_balance: BigInt,
    pub vault: VaultBalanceChangeVault,
    pub timestamp: BigInt,
    pub transaction: Transaction,
    pub orderbook: Orderbook,
}

/// A balance change a trade caused.
#[derive(Debug, Clone)]
pub struct TradeVaultBalanceChange {
    pub id: Bytes,
    pub __typename: String,
    pub amount: BigInt,
    pub new_vault_balance: BigInt,
    pub old_vault_balance: BigInt,
    pub vault: VaultBalanceChangeVault,
    pub timestamp: BigInt,
    pub transaction: Transaction,
    pub orderbook: Orderbook,
}

/// One balance change of a vault.
#[derive(Debug, Clone)]
pub enum VaultBalanceChange {
    Withdrawal(Withdrawal),
    TradeVaultBalanceChange(TradeVaultBalanceChange),
    Deposit(Deposit),
    Unknown,
}

/// A vault: an owner's balance of one token under one orderbook.
#[derive(Debug, Clone)]
pub struct Vault {
    pub id: Bytes,
    pub owner: Bytes,
    pub vault_id: BigInt,
    pub balance: BigInt,
    pub token: Erc20,
    pub orderbook: Orderbook,
    pub orders_as_output: Vec<OrderAsIO>,
    pub orders_as_input: Vec<OrderAsIO>,
    pub balance_changes: Vec<VaultBalanceChange>,
}

/// The event that added an order.
#[derive(Debug, Clone)]
pub struct AddOrder {
    pub transaction: Transaction,
}

/// An order with its vaults and provenance.
#[derive(Debug, Clone)]
pub struct Order {
    pub id: Bytes,
    pub order_bytes: Bytes,
    pub order_hash: Bytes,
    pub owner: Bytes,
    pub outputs: Vec<Vault>,
    pub inputs: Vec<Vault>,
    pub orderbook: Orderbook,
    pub active: bool,
    pub timestamp_added: BigInt,
    pub meta: Option<RainMetaV1>,
    pub add_events: Vec<AddOrder>,
}

/// The event behind one trade.
#[derive(Debug, Clone)]
pub struct TradeEvent {
    pub transaction: Transaction,
    pub sender: Bytes,
}

/// One fill of an order.
#[derive(Debug, Clone)]
pub struct Trade {
    pub id: Bytes,
    pub trade_event: TradeEvent,
    pub output_vault_balance_change: TradeVaultBalanceChange,
    pub order: Order,
    pub input_vault_balance_change: TradeVaultBalanceChange,
    pub timestamp: BigInt,
    pub orderbook: Orderbook,
}

/// The direction a listing is sorted in.
#[derive(Debug, Clone, Copy)]
pub enum OrderDirection {
    Asc,
    Desc,
}

/// The field an order listing is sorted by.
#[derive(Debug, Clone, Copy)]
pub enum OrderOrderBy {
    Id,
    Orderbook,
    OrderbookId,
    Active,
    OrderHash,
    Owner,
    Inputs,
    Outputs,
    Nonce,
    OrderBytes,
    AddEvents,
    RemoveEvents,
    Trades,
    Meta,
    TimestampAdded,
}

/// The field an add-order listing is sorted by.
#[derive(Debug, Clone, Copy)]
pub enum AddOrderOrderBy {
    Id,
    Order,
    OrderId,
    OrderActive,
    OrderOrderHash,
    OrderOwner,
    OrderNonce,
    OrderOrderBytes,
    OrderMeta,
    OrderTimestampAdded,
    Orderbook,
    OrderbookId,
    Transaction,
    TransactionId,
    TransactionTimestamp,
    TransactionBlockNumber,
    TransactionFrom,
    Sender,
}

/// The field a trade listing is sorted by.
#[derive(Debug, Clone, Copy)]
pub enum TradeOrderBy {
    Id,
    Orderbook,
    OrderbookId,
    Order,
    OrderId,
    OrderActive,
    OrderOrderHash,
    OrderOwner,
    OrderNonce,
    OrderOrderBytes,
    OrderMeta,
    OrderTimestampAdded,
    InputVaultBalanceChange,
    InputVaultBalanceChangeId,
    InputVaultBalanceChangeAmount,
    InputVaultBalanceChangeOldVaultBalance,
    InputVaultBalanceChangeNewVaultBalance,
    InputVaultBalanceChangeTimestamp,
    OutputVaultBalanceChange,
    OutputVaultBalanceChangeId,
    OutputVaultBalanceChangeAmount,
    OutputVaultBalanceChangeOldVaultBalance,
    OutputVaultBalanceChangeNewVaultBalance,
    OutputVaultBalanceChangeTimestamp,
    TradeEvent,
    TradeEventId,
    TradeEventSender,
    Timestamp,
}

/// The field a vault listing is sorted by.
#[derive(Debug, Clone, Copy)]
pub enum VaultOrderBy {
    Id,
    Orderbook,
    OrderbookId,
    Token,
    TokenId,
    TokenAddress,
    TokenName,
    TokenSymbol,
    TokenDecimals,
    Owner,
    VaultId,
    OrdersAsInput,
    OrdersAsOutput,
    Balance,
    BalanceChanges,
}

} // verus!
