//! A command protocol for composite, recursive operations on a store of
//! nested buckets: the operations, the ordered set that carries them, and the
//! byte form in which a set travels.

pub mod canonical;
pub mod codec;
pub mod key_order;
pub mod operate;
pub mod para;
pub mod round_trip;
pub mod wire;

pub use operate::{
    add_key, make_operate_set, read_key, AddBucketOperate, AddKeyOperate, DeleteKeyOperate,
    Operate, OperateModel, OperateSet, ReadOperate, RenameKeyOperate, StepIntoOperate,
};
pub use para::Para;
pub use wire::SchemaDecodeError;
