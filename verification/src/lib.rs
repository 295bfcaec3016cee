//! Reverse-mode automatic differentiation over a shared operator graph.
//!
//! The graph is an arena of operator nodes with fan-in ([`graph`]). A pass
//! over it is driven by per-node push and pop counts ([`stack`]), so that
//! each node's hook fires exactly once per pass however many consumers
//! reach it, after its inputs in a forward pass and before them in a
//! reverse pass ([`order`]). The passes themselves, from evaluation to
//! curvature-vector products, run the hooks that the operators supply
//! ([`operator`], [`passes`]).
//!
//! Node outputs live in transactional, clock-indexed buffers ([`txn`],
//! [`array`]) that are computed once per transaction (values) or
//! accumulated into (gradients), and are addressed by references that a
//! pass can select ([`refs`]). Identifiers come from counters that never
//! repeat ([`ids`]).

pub mod array;
pub mod flat;
pub mod graph;
pub mod ids;
pub mod operator;
pub mod order;
pub mod passes;
pub mod refs;
pub mod stack;
pub mod txn;

pub use crate::array::{ArrayData, ArrayStorage};
pub use crate::flat::{FlatReader, FlatWriter};
pub use crate::graph::{Graph, GraphView};
pub use crate::ids::{Epoch, EpochNr, IdCounts, IdKind, IdSource, NodeId, TxnId};
pub use crate::operator::{ArrayOp, DiffOperator, DiffScalarLoss, NotImplemented, Pass, Transfer};
pub use crate::refs::{DataKind, DataKind::Grad, DataKind::RGrad, DataKind::RVal, DataKind::Val, DataRef, DataRefSet, RefSetView};
pub use crate::stack::{Level, OperatorStack, OperatorStackEntry, StackView};
pub use crate::txn::{SlotView, TxnData, TxnDataBuf, TxnDataView};
