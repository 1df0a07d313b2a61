use vstd::prelude::*;

verus! {

/// The types a column can have.
#[derive(Debug, Clone, Copy, PartialEq, Eq, Structural)]
pub enum DataType {
    Boolean,
    Int8,
    Int16,
    Int32,
    Int64,
}

#[derive(Debug, Clone, PartialEq, Eq)]
pub struct Column {
    pub name: String,
    pub data_type: DataType,
    pub nullable: bool,
}

impl Column {
    pub fn new(name: String, data_type: DataType, nullable: bool) -> (column: Column)
        ensures
            column.name == name,
            column.data_type == data_type,
            column.nullable == nullable,
    {
        Column { name, data_type, nullable }
    }
}

/// An ordered list of named, typed columns.
#[derive(Debug, Clone, PartialEq, Eq)]
pub struct Schema {
    pub columns: Vec<Column>,
}

impl Schema {
    pub fn new(columns: Vec<Column>) -> (schema: Schema)
        ensures
            schema.columns == columns,
    {
        Schema { columns }
    }

    /// The column types in order: all that the storage core reads of a schema.
    pub open spec fn types(&self) -> Seq<DataType> {
        Seq::new(self.columns@.len(), |i: int| self.columns@[i].data_type)
    }

    pub fn column_count(&self) -> (n: usize)
        ensures
            n == self.types().len(),
    {
        self.columns.len()
    }

    pub fn column_type(&self, index: usize) -> (data_type: DataType)
        requires
            index < self.types().len(),
        ensures
            data_type == self.types()[index as int],
    {
        self.columns[index].data_type
    }
}

} // verus!
