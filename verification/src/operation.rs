//! Ledger operation records.
//!
//! Prices, fees and other monetary amounts are fixed-point integers in
//! minor currency units; quantities are whole numbers of shares.

use vstd::prelude::*;

verus! {

/// The asset class an operation concerns.
#[derive(Clone, Copy, Debug, PartialEq, Eq, Structural)]
pub enum AssetKind {
    Stock,
    TesouroDireto,
    FII,
}

/// Whether an operation adds to or removes from a position.
#[derive(Clone, Copy, Debug, PartialEq, Eq, Structural)]
pub enum OperationKind {
    Purchase,
    Sale,
}

/// The mathematical content of a [`BaseOperation`].
#[verifier::ext_equal]
pub ghost struct OpView {
    pub price: int,
    pub quantity: int,
    pub fees: int,
    pub kind: OperationKind,
    pub broker: Option<Seq<char>>,
    pub portfolios: Seq<Seq<char>>,
}

/// A single purchase or sale: unit price, share count, fees paid, and the
/// broker and portfolios the operation is attributed to.
#[derive(Debug, PartialEq)]
pub struct BaseOperation {
    pub price: i64,
    pub quantity: i64,
    pub fees: i64,
    pub kind: OperationKind,
    pub broker: Option<String>,
    pub portfolios: Vec<String>,
}

impl View for BaseOperation {
    type V = OpView;

    open spec fn view(&self) -> OpView {
        OpView {
            price: self.price as int,
            quantity: self.quantity as int,
            fees: self.fees as int,
            kind: self.kind,
            broker: self.broker.deep_view(),
            portfolios: self.portfolios.deep_view(),
        }
    }
}

impl DeepView for BaseOperation {
    type V = OpView;

    open spec fn deep_view(&self) -> OpView {
        self.view()
    }
}

impl Clone for BaseOperation {
    fn clone(&self) -> (res: Self)
        ensures
            res@ == self@,
    {
        let broker: Option<String> = match &self.broker {
            Some(b) => Some(b.clone()),
            None => None,
        };
        let portfolios: Vec<String> = self.portfolios.clone();
        let res = BaseOperation {
            price: self.price,
            quantity: self.quantity,
            fees: self.fees,
            kind: self.kind,
            broker,
            portfolios,
        };
        proof {
            assert(res.portfolios.deep_view() =~= self.portfolios.deep_view());
            assert(res@ =~= self@);
        }
        res
    }
}

/// The mathematical content of a [`StockOperation`] or [`FIIOperation`].
#[verifier::ext_equal]
pub ghost struct StockOperationView {
    pub asset_kind: AssetKind,
    pub operation: OpView,
}

/// A stock purchase or sale event payload.
#[derive(Debug, PartialEq)]
pub struct StockOperation {
    pub asset_kind: AssetKind,
    pub operation: BaseOperation,
}

impl View for StockOperation {
    type V = StockOperationView;

    open spec fn view(&self) -> StockOperationView {
        StockOperationView { asset_kind: self.asset_kind, operation: self.operation@ }
    }
}

impl DeepView for StockOperation {
    type V = StockOperationView;

    open spec fn deep_view(&self) -> StockOperationView {
        self.view()
    }
}

impl Clone for StockOperation {
    fn clone(&self) -> (res: Self)
        ensures
            res@ == self@,
    {
        StockOperation { asset_kind: self.asset_kind, operation: self.operation.clone() }
    }
}

/// A real-estate-fund purchase or sale event payload; structurally the
/// same operation record attributed to a different asset class.
#[derive(Debug, PartialEq)]
pub struct FIIOperation {
    pub asset_kind: AssetKind,
    pub operation: BaseOperation,
}

impl View for FIIOperation {
    type V = StockOperationView;

    open spec fn view(&self) -> StockOperationView {
        StockOperationView { asset_kind: self.asset_kind, operation: self.operation@ }
    }
}

impl DeepView for FIIOperation {
    type V = StockOperationView;

    open spec fn deep_view(&self) -> StockOperationView {
        self.view()
    }
}

impl Clone for FIIOperation {
    fn clone(&self) -> (res: Self)
        ensures
            res@ == self@,
    {
        FIIOperation { asset_kind: self.asset_kind, operation: self.operation.clone() }
    }
}

} // verus!
