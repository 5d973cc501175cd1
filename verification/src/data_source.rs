//! Descriptions of relational data sources: connection requests and the
//! schema metadata a connected source reports.
use vstd::prelude::*;

verus! {

/// A request to connect to a data source by name and connection string.
#[derive(Debug)]
pub struct ConnectDataSourceRequest {
    pub name: String,
    pub connection_string: String,
}

/// One column of a table.
#[derive(Debug)]
pub struct DataSourceColumnInfo {
    pub name: String,
    pub col_type: String,
    pub is_nullable: bool,
}

/// A primary key of a table.
#[derive(Debug)]
pub struct DataSourcePrimaryKey {
    pub name: String,
    pub columns: Vec<String>,
}

/// A foreign key of a table.
#[derive(Debug)]
pub struct DataSourceForeignKey {
    pub name: String,
    pub from_columns: Vec<String>,
    pub to_table: String,
    pub to_columns: Vec<String>,
}

/// The schema of one table: its columns by name and its keys.
#[derive(Debug)]
pub struct DataSourceTableInfo {
    pub name: String,
    pub columns: Vec<(String, DataSourceColumnInfo)>,
    pub primary_keys: Vec<DataSourcePrimaryKey>,
    pub foreign_keys: Vec<DataSourceForeignKey>,
}

/// Everything a connected source reports: its tables' schemas and the first
/// rows of each table as text.
#[derive(Debug)]
pub struct DataSourceMetadata {
    pub name: String,
    pub tables: Vec<(String, DataSourceTableInfo)>,
    pub preview_data: Vec<(String, Vec<Vec<(String, String)>>)>,
}

} // verus!
