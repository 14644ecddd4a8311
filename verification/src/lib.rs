//! Compact fixed-layout binary records: fields packed at bit granularity, and
//! the compiler that derives the packing from field descriptions.
pub mod compression;
pub mod field;
pub mod fixed;
pub mod spec;

pub use field::{BoolField, EncodeError, Field, FieldId, FieldVariant, MetaField, TypedValue};
pub use fixed::Fixed;
pub use spec::{
    divide_up, CompileError, FieldBool, FieldLength, FieldManual, FieldResolution, FieldSpec,
    MetaData, MetaDataSpec,
};
