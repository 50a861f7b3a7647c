//! Definitions of the query representation: tables, their columns and
//! types, and the operator roles of a pipeline.

use vstd::prelude::*;
use std::rc::Rc;

verus! {

/// An operator of a query pipeline.
pub trait Operator {
}

/// An operator that produces rows for a pipeline.
pub trait Source: Operator {
}

/// An operator that consumes the rows at the end of a pipeline.
pub trait Sink: Operator {
}

/// Type definitions for a table.
pub struct Table {
    pub name: String,
    pub columns: Vec<Column>,
}

/// Column definition for a column in a table.
pub struct Column {
    pub name: String,
    pub data_type: DataType,
}

/// Data type for columns.
pub enum DataType {
    I8,
    I16,
    I32,
    I64,
    U8,
    U16,
    U32,
    U64,
    F32,
    F64,
    Decimal,
    Bool,
    String,
    Date,
    DateTime,
    List(Box<DataType>),
    Struct(Box<Table>),
    Mapping(Box<DataType>, Box<DataType>),
}

/// A scan source operator over a table, producing the named columns.
pub struct Scan {
    pub name: String,
    pub table: Rc<Table>,
    pub output: Vec<String>,
}

impl Operator for Scan {
}

impl Source for Scan {
}

/// A filter operator: keeps the rows of its input that satisfy the predicate.
pub struct Filter {
    pub input: Rc<dyn Operator>,
    pub predicate: String,
    pub output: Vec<String>,
}

impl Operator for Filter {
}

/// A sink that passes on the rows of its input as they are.
pub struct IdentitySink {
    pub input: Rc<dyn Operator>,
}

impl Operator for IdentitySink {
}

impl Sink for IdentitySink {
}

} // verus!
