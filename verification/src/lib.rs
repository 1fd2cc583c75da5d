//! A minimal reactive user-interface core: a template compiler that turns a
//! declarative tree notation into an explicit sequence of tree-construction
//! operations, and a subscribable value cell whose mutation drives those
//! operations, correct under re-entrant mutation.

pub mod bytes;
pub mod codegen;
pub mod dom;
pub mod router;
pub mod storage;
pub mod signal;
pub mod template;

pub use bytes::{bytes_eq, clone_bytes, copy_range};
pub use codegen::{generate_node, resolve_method, tp, EventKind, Op, OpView};
pub use dom::{Attr, AttrView, BuiltNode, BuiltView, ChildInst, ChildInstView, ConstructionError, Dom, Listener, ListenerView};
pub use router::{normalize_hash, route_index};
pub use storage::{Entry, StorageModel, persist_set, use_local_storage};
pub use signal::{CellState, Cmd, Event, Run, Signal, use_state};
pub use template::{parse_node, parse_template, ArgView, ChildView, CompileError, MethodArg, MethodView, NodeMethod, NodeView, TpChild, TpNode};
