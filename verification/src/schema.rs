//! The normalized schema model that layout graphs are built from.
//!
//! A schema is a set of tables (with columns and foreign keys), views (with
//! an optional SQL definition) and enum types.

use vstd::prelude::*;

verus! {

/// A column of a table.
#[derive(Debug)]
pub struct Column {
    /// Column name.
    pub name: String,
    /// Column data type as written in the schema.
    pub data_type: String,
    /// Whether the column can be null.
    pub nullable: bool,
    /// Whether this column is part of the primary key.
    pub is_primary_key: bool,
}

/// A foreign key declared on a table.
#[derive(Debug)]
pub struct ForeignKey {
    /// Constraint name, if any.
    pub name: Option<String>,
    /// Referencing columns on the declaring table.
    pub from_columns: Vec<String>,
    /// Referenced table (stable id or table name).
    pub to_table: String,
    /// Referenced columns on the target table.
    pub to_columns: Vec<String>,
}

/// A table of the schema.
#[derive(Debug)]
pub struct Table {
    /// Stable identifier of the table.
    pub stable_id: String,
    /// Schema (namespace) name, if any.
    pub schema_name: Option<String>,
    /// Table name.
    pub name: String,
    /// Columns in declaration order.
    pub columns: Vec<Column>,
    /// Foreign keys declared on the table.
    pub foreign_keys: Vec<ForeignKey>,
}

/// A column of a view.
#[derive(Debug)]
pub struct ViewColumn {
    /// Column name.
    pub name: String,
    /// Column data type.
    pub data_type: String,
    /// Whether the column can be null.
    pub nullable: bool,
}

/// A view of the schema.
#[derive(Debug)]
pub struct SchemaView {
    /// Stable identifier of the view.
    pub id: String,
    /// Schema (namespace) name, if any.
    pub schema_name: Option<String>,
    /// View name.
    pub name: String,
    /// Output columns.
    pub columns: Vec<ViewColumn>,
    /// SQL definition, if known.
    pub definition: Option<String>,
}

/// A user-defined enum type.
#[derive(Debug)]
pub struct Enum {
    /// Stable identifier of the enum.
    pub id: String,
    /// Schema (namespace) name, if any.
    pub schema_name: Option<String>,
    /// Enum type name.
    pub name: String,
    /// Enum labels in declaration order.
    pub values: Vec<String>,
}

/// A normalized database schema.
#[derive(Debug)]
pub struct Schema {
    /// Tables.
    pub tables: Vec<Table>,
    /// Views.
    pub views: Vec<SchemaView>,
    /// Enum types.
    pub enums: Vec<Enum>,
}

/// Kind of a diagram node.
#[derive(Debug, Clone, Copy, PartialEq, Eq, Structural)]
pub enum NodeKind {
    /// A table.
    Table,
    /// A view.
    View,
    /// An enum type.
    Enum,
}

/// Kind of a diagram edge.
#[derive(Debug, Clone, Copy, PartialEq, Eq, Structural)]
pub enum EdgeKind {
    /// A foreign key from the referencing table to the referenced table.
    ForeignKey,
    /// A column whose type is a user-defined enum.
    EnumReference,
    /// A view depending on a table or another view.
    ViewDependency,
}

/// How nodes are grouped into clusters.
#[derive(Debug, Clone, Copy, PartialEq, Eq, Structural)]
pub enum GroupingStrategy {
    /// No grouping.
    Ungrouped,
    /// One group per schema name.
    BySchema,
    /// One group per table-name prefix.
    ByPrefix,
}

/// Grouping specification.
#[derive(Debug, Clone, Copy, PartialEq, Eq, Structural)]
pub struct GroupingSpec {
    /// Grouping strategy.
    pub strategy: GroupingStrategy,
}

/// Include / exclude glob patterns applied to object names.
#[derive(Debug)]
pub struct FilterSpec {
    /// Patterns of which at least one must match (empty: everything matches).
    pub include_patterns: Vec<String>,
    /// Patterns of which none may match.
    pub exclude_patterns: Vec<String>,
}

/// Focus on one table and its neighbourhood.
#[derive(Debug)]
pub struct FocusSpec {
    /// Stable id, table name or qualified name of the focus table.
    pub table: String,
    /// Maximum distance (in edges, either direction) from the focus table.
    pub depth: u32,
}

/// `schema.name` when a schema name is present, else `name`.
pub open spec fn qualified_name_of(schema_name: Option<Seq<char>>, name: Seq<char>) -> Seq<char> {
    match schema_name {
        Some(s) => s + seq!['.'] + name,
        None => name,
    }
}

/// The view of an optional string.
pub open spec fn opt_view(s: Option<String>) -> Option<Seq<char>> {
    match s {
        Some(v) => Some(v@),
        None => None,
    }
}

/// Builds `schema.name` (or `name` alone).
pub fn qualified_name(schema_name: &Option<String>, name: &String) -> (q: String)
    ensures
        q@ == qualified_name_of(opt_view(*schema_name), name@),
{
    match schema_name {
        Some(s) => {
            let mut q = s.clone();
            q.append(".");
            q.append(name.as_str());
            proof {
                reveal_strlit(".");
            }
            q
        },
        None => name.clone(),
    }
}

impl Table {
    /// Qualified name (`schema.table` or just `table`).
    pub fn qualified_name(&self) -> (q: String)
        ensures
            q@ == qualified_name_of(opt_view(self.schema_name), self.name@),
    {
        qualified_name(&self.schema_name, &self.name)
    }
}

impl SchemaView {
    /// Qualified name (`schema.view` or just `view`).
    pub fn qualified_name(&self) -> (q: String)
        ensures
            q@ == qualified_name_of(opt_view(self.schema_name), self.name@),
    {
        qualified_name(&self.schema_name, &self.name)
    }
}

impl Enum {
    /// Qualified name (`schema.enum` or just `enum`).
    pub fn qualified_name(&self) -> (q: String)
        ensures
            q@ == qualified_name_of(opt_view(self.schema_name), self.name@),
    {
        qualified_name(&self.schema_name, &self.name)
    }
}

} // verus!
