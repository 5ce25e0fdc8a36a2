//! System catalog tables: column type names, table schemas, the column
//! layout of a table's rows, and the build version label.

use vstd::prelude::*;
use vstd::string::StrSliceExecFns;
use vstd::string::StringExecFns;

verus! {

/// One column of a system table, as written in its definition file.
#[derive(Debug, Clone)]
pub struct ColumnDef {
    pub name: String,
    /// The type's name: one of `UInt64`, `Int64`, `Float64`, `Utf8`, `Boolean`.
    pub data_type: String,
    pub nullable: bool,
}

/// The column types a system table may use.
#[derive(Debug, Clone, Copy, PartialEq, Eq, Structural)]
pub enum ColumnType {
    UInt64,
    Int64,
    Float64,
    Utf8,
    Boolean,
}

/// A column of a table's schema: its name, type and nullability.
#[derive(Debug, Clone)]
pub struct FieldSpec {
    pub name: String,
    pub column_type: ColumnType,
    pub nullable: bool,
}

/// Why a table definition was refused.
#[derive(Debug, Clone)]
pub enum CatalogError {
    /// A column names a type that is not supported; holds that name.
    UnsupportedType(String),
}

/// The column type a type name stands for, if any.
pub open spec fn type_named(name: Seq<char>) -> Option<ColumnType> {
    if name == "UInt64"@ {
        Some(ColumnType::UInt64)
    } else if name == "Int64"@ {
        Some(ColumnType::Int64)
    } else if name == "Float64"@ {
        Some(ColumnType::Float64)
    } else if name == "Utf8"@ {
        Some(ColumnType::Utf8)
    } else if name == "Boolean"@ {
        Some(ColumnType::Boolean)
    } else {
        None
    }
}

/// Whether two strings hold the same characters.
fn str_eq(a: &str, b: &str) -> (r: bool)
    ensures
        r == (a@ == b@),
{
    let n = a.unicode_len();
    let m = b.unicode_len();
    if n != m {
        return false;
    }
    let mut i: usize = 0;
    while i < n
        invariant
            n == a@.len(),
            m == b@.len(),
            n == m,
            i <= n,
            forall|k: int| 0 <= k < i ==> a@[k] == b@[k],
        decreases n - i,
    {
        if a.get_char(i) != b.get_char(i) {
            return false;
        }
        i = i + 1;
    }
    assert(a@ =~= b@);
    true
}

/// The column type named `name`, or `UnsupportedType` with the name.
pub fn arrow_type(name: &str) -> (r: Result<ColumnType, CatalogError>)
    ensures
        match r {
            Ok(t) => type_named(name@) == Some(t),
            Err(CatalogError::UnsupportedType(n)) => type_named(name@) is None && n@ == name@,
        },
{
    if str_eq(name, "UInt64") {
        Ok(ColumnType::UInt64)
    } else if str_eq(name, "Int64") {
        Ok(ColumnType::Int64)
    } else if str_eq(name, "Float64") {
        Ok(ColumnType::Float64)
    } else if str_eq(name, "Utf8") {
        Ok(ColumnType::Utf8)
    } else if str_eq(name, "Boolean") {
        Ok(ColumnType::Boolean)
    } else {
        Err(CatalogError::UnsupportedType(String::from_str(name)))
    }
}

/// The column type of a column definition, if its type name is supported.
pub open spec fn column_type_of(c: ColumnDef) -> Option<ColumnType> {
    type_named(c.data_type@)
}

/// Every column of `cols` names a supported type.
pub open spec fn all_supported(cols: Seq<ColumnDef>) -> bool {
    forall|i: int| 0 <= i < cols.len() ==> (#[trigger] column_type_of(cols[i])) is Some
}

/// `f` is the schema field that column `c` describes.
pub open spec fn field_of(f: FieldSpec, c: ColumnDef) -> bool {
    &&& f.name@ == c.name@
    &&& column_type_of(c) == Some(f.column_type)
    &&& f.nullable == c.nullable
}

/// `e` names the type of the first column of `cols` whose type is not supported.
pub open spec fn first_unsupported(cols: Seq<ColumnDef>, e: CatalogError) -> bool {
    exists|j: int|
        #![trigger cols[j]]
        0 <= j < cols.len() && column_type_of(cols[j]) is None && all_supported(cols.take(j))
            && e == CatalogError::UnsupportedType(e->UnsupportedType_0)
            && e->UnsupportedType_0@ == cols[j].data_type@
}

/// The schema of a table: one field per column, in order, or the error for
/// the first column whose type is not supported.
pub fn build_schema(columns: &[ColumnDef]) -> (r: Result<Vec<FieldSpec>, CatalogError>)
    ensures
        r is Ok <==> all_supported(columns@),
        r matches Ok(fields) ==> fields@.len() == columns@.len() && (forall|i: int|
            0 <= i < columns@.len() ==> field_of(#[trigger] fields@[i], columns@[i])),
        r matches Err(e) ==> first_unsupported(columns@, e),
{
    let mut fields: Vec<FieldSpec> = Vec::new();
    let mut i: usize = 0;
    while i < columns.len()
        invariant
            i <= columns@.len(),
            fields@.len() == i,
            all_supported(columns@.take(i as int)),
            forall|k: int| 0 <= k < i ==> field_of(#[trigger] fields@[k], columns@[k]),
        decreases columns@.len() - i,
    {
        let c = &columns[i];
        match arrow_type(c.data_type.as_str()) {
            Ok(t) => {
                fields.push(FieldSpec { name: c.name.clone(), column_type: t, nullable: c.nullable });
                assert(columns@.take(i + 1) =~= columns@.take(i as int).push(columns@[i as int]));
                assert forall|k: int| 0 <= k < i + 1 implies (#[trigger] column_type_of(
                    columns@.take(i + 1)[k],
                )) is Some by {
                    if k < i {
                        assert(columns@.take(i + 1)[k] == columns@.take(i as int)[k]);
                    }
                }
            },
            Err(e) => {
                assert(column_type_of(columns@[i as int]) is None);
                return Err(e);
            },
        }
        i = i + 1;
    }
    assert(columns@.take(columns@.len() as int) =~= columns@);
    Ok(fields)
}

/// The cell of each row in column `col`: a clone of the row's cell, or of
/// `missing` for a row that has fewer cells.
pub open spec fn column_cells<T: Clone>(rows: Seq<Vec<T>>, col: int, missing: T, cells: Seq<T>) -> bool {
    &&& cells.len() == rows.len()
    &&& forall|i: int|
        0 <= i < rows.len() ==> (if col < rows[i]@.len() {
            cloned::<T>(rows[i]@[col], #[trigger] cells[i])
        } else {
            cloned::<T>(missing, cells[i])
        })
}

/// The cells of column `col`, one per row; a row without that column gives
/// a clone of `missing`.
pub fn column_values<T: Clone>(rows: &Vec<Vec<T>>, col: usize, missing: &T) -> (r: Vec<T>)
    ensures
        column_cells(rows@, col as int, *missing, r@),
{
    let mut out: Vec<T> = Vec::new();
    let mut i: usize = 0;
    while i < rows.len()
        invariant
            i <= rows@.len(),
            out@.len() == i,
            forall|k: int|
                0 <= k < i ==> (if col < rows@[k]@.len() {
                    cloned::<T>(rows@[k]@[col as int], #[trigger] out@[k])
                } else {
                    cloned::<T>(*missing, out@[k])
                }),
        decreases rows@.len() - i,
    {
        let row = &rows[i];
        let cell = if col < row.len() {
            row[col].clone()
        } else {
            missing.clone()
        };
        out.push(cell);
        i = i + 1;
    }
    out
}

/// A table's schema together with its rows laid out column by column.
pub struct ColumnBatch<T> {
    pub fields: Vec<FieldSpec>,
    /// One entry per field, each holding one cell per row.
    pub columns: Vec<Vec<T>>,
}

/// Lays a table out by column: its schema, and for each column the cell of
/// every row (a clone of `missing` where a row is short). Fails as
/// `build_schema` does when a column's type is not supported.
pub fn build_record_batch<T: Clone>(columns: &[ColumnDef], rows: &Vec<Vec<T>>, missing: &T) -> (r: Result<ColumnBatch<T>, CatalogError>)
    ensures
        r is Ok <==> all_supported(columns@),
        r matches Ok(b) ==> b.fields@.len() == columns@.len() && b.columns@.len() == columns@.len()
            && (forall|j: int| 0 <= j < columns@.len() ==> field_of(#[trigger] b.fields@[j], columns@[j]))
            && (forall|j: int| 0 <= j < columns@.len() ==> column_cells(rows@, j, *missing, (#[trigger] b.columns@[j])@)),
        r matches Err(e) ==> first_unsupported(columns@, e),
{
    let fields = match build_schema(columns) {
        Ok(f) => f,
        Err(e) => return Err(e),
    };
    let mut cols: Vec<Vec<T>> = Vec::new();
    let mut j: usize = 0;
    while j < columns.len()
        invariant
            j <= columns@.len(),
            cols@.len() == j,
            forall|k: int| 0 <= k < j ==> column_cells(rows@, k, *missing, (#[trigger] cols@[k])@),
        decreases columns@.len() - j,
    {
        let values = column_values(rows, j, missing);
        cols.push(values);
        j = j + 1;
    }
    Ok(ColumnBatch { fields, columns: cols })
}

/// The build a binary was made from: a short commit hash and a build time.
#[derive(Debug, Clone)]
pub struct VersionInfo {
    pub commit_short: String,
    pub build_time: String,
}

/// The version label: the commit, a hyphen, then the build time.
pub fn version_value(version: &VersionInfo) -> (r: String)
    ensures
        r@ == version.commit_short@ + "-"@ + version.build_time@,
{
    let mut s = version.commit_short.clone();
    s.append("-");
    s.append(version.build_time.as_str());
    s
}

impl CatalogError {
    /// The error's message: `unsupported type: ` followed by the type name.
    pub fn message(&self) -> (r: String)
        ensures
            match self {
                CatalogError::UnsupportedType(n) => r@ == "unsupported type: "@ + n@,
            },
    {
        match self {
            CatalogError::UnsupportedType(n) => {
                let mut s = String::from_str("unsupported type: ");
                s.append(n.as_str());
                s
            },
        }
    }
}

/// A cell of a system table as its definition file writes it: null, a
/// boolean, a number (as an unsigned and as a signed 64-bit integer, where
/// it is one), a string, or anything else (a list, a map, a tagged value).
#[derive(Debug, Clone)]
pub enum YamlCell {
    Null,
    Bool(bool),
    Number(Option<u64>, Option<i64>),
    Text(String),
    Other,
}

/// A typed cell of a column; a null cell is `None`.
#[derive(Debug, Clone)]
pub enum Cell {
    UInt64(u64),
    Int64(i64),
    Utf8(String),
    Boolean(bool),
}

/// Whether `out` is what a cell of type `ty` holds for the written cell
/// `c`: the value when `c` is one of that type, null otherwise (a null
/// cell, or one of another type).
pub open spec fn converts(c: YamlCell, ty: ColumnType, out: Option<Cell>) -> bool {
    match ty {
        ColumnType::UInt64 => out == (match c {
            YamlCell::Number(Some(u), _) => Some(Cell::UInt64(u)),
            _ => None,
        }),
        ColumnType::Int64 => out == (match c {
            YamlCell::Number(_, Some(i)) => Some(Cell::Int64(i)),
            _ => None,
        }),
        ColumnType::Boolean => out == (match c {
            YamlCell::Bool(b) => Some(Cell::Boolean(b)),
            _ => None,
        }),
        ColumnType::Utf8 => match c {
            YamlCell::Text(s) => out matches Some(Cell::Utf8(t)) && t@ == s@,
            _ => out is None,
        },
        ColumnType::Float64 => false,
    }
}

/// The typed cell of type `ty` for one written cell.
fn yaml_cell_value(c: &YamlCell, ty: ColumnType) -> (r: Option<Cell>)
    requires
        ty != ColumnType::Float64,
    ensures
        converts(*c, ty, r),
{
    match ty {
        ColumnType::UInt64 => match c {
            YamlCell::Number(Some(u), _) => Some(Cell::UInt64(*u)),
            _ => None,
        },
        ColumnType::Int64 => match c {
            YamlCell::Number(_, Some(i)) => Some(Cell::Int64(*i)),
            _ => None,
        },
        ColumnType::Boolean => match c {
            YamlCell::Bool(b) => Some(Cell::Boolean(*b)),
            _ => None,
        },
        ColumnType::Utf8 => match c {
            YamlCell::Text(s) => Some(Cell::Utf8(s.clone())),
            _ => None,
        },
        ColumnType::Float64 => None,
    }
}

/// A column of type `ty` from its written cells, one typed cell per
/// written cell: a cell that is null or not of that type reads as null.
/// Floating-point columns are converted by the caller.
pub fn yaml_cells_to_column(values: &Vec<YamlCell>, ty: ColumnType) -> (r: Vec<Option<Cell>>)
    requires
        ty != ColumnType::Float64,
    ensures
        r@.len() == values@.len(),
        forall|i: int| 0 <= i < values@.len() ==> converts(values@[i], ty, #[trigger] r@[i]),
{
    let mut out: Vec<Option<Cell>> = Vec::new();
    let mut i: usize = 0;
    while i < values.len()
        invariant
            i <= values@.len(),
            ty != ColumnType::Float64,
            out@.len() == i,
            forall|k: int| 0 <= k < i ==> converts(values@[k], ty, #[trigger] out@[k]),
        decreases values@.len() - i,
    {
        let c = yaml_cell_value(&values[i], ty);
        out.push(c);
        i = i + 1;
    }
    out
}

} // verus!
