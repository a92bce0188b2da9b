//! Values, rows, schemas and tables.

use vstd::prelude::*;
use vstd::string::*;
use vstd::utf8::*;

verus! {

/// The type of a column.
#[derive(Clone, Copy, Debug, PartialEq, Eq, Structural)]
pub enum DBType {
    Integer,
    Text,
}

/// A value stored in one column of a row.
#[derive(Debug, PartialEq)]
pub enum DBValue {
    Integer(i64),
    Text(String),
}

/// The mathematical content of a [`DBValue`].
pub enum ValueView {
    Integer(i64),
    Text(Seq<char>),
}

impl View for DBValue {
    type V = ValueView;

    open spec fn view(&self) -> ValueView {
        match *self {
            DBValue::Integer(i) => ValueView::Integer(i),
            DBValue::Text(s) => ValueView::Text(s@),
        }
    }
}

impl DeepView for DBValue {
    type V = ValueView;

    open spec fn deep_view(&self) -> ValueView {
        self@
    }
}

impl DeepView for DBType {
    type V = DBType;

    open spec fn deep_view(&self) -> DBType {
        *self
    }
}

/// The type that a value of the given content has.
pub open spec fn type_of(v: ValueView) -> DBType {
    match v {
        ValueView::Integer(_) => DBType::Integer,
        ValueView::Text(_) => DBType::Text,
    }
}

/// A row: one value per column, in column order.
pub type Row = Vec<DBValue>;

impl Clone for DBValue {
    fn clone(&self) -> (r: Self)
        ensures
            r == *self,
    {
        match self {
            DBValue::Integer(i) => DBValue::Integer(*i),
            DBValue::Text(s) => DBValue::Text(s.clone()),
        }
    }
}

impl DBType {
    /// The name of the type, as a statement writes it.
    pub open spec fn name(self) -> Seq<char> {
        match self {
            DBType::Integer => "integer"@,
            DBType::Text => "text"@,
        }
    }

    /// The name of the type, as a statement writes it.
    pub fn to_string(&self) -> (r: String)
        ensures
            r@ == self.name(),
    {
        match self {
            DBType::Integer => "integer".to_owned(),
            DBType::Text => "text".to_owned(),
        }
    }
}

impl DBValue {
    /// The value as it is shown: an integer in decimal digits, a text as it is.
    pub fn to_string(&self) -> (r: String)
        ensures
            match *self {
                DBValue::Integer(i) => to_string_from_display_ensures::<i64>(&i, r),
                DBValue::Text(t) => r@ == t@,
            },
    {
        match self {
            DBValue::Integer(i) => i.to_string(),
            DBValue::Text(t) => t.clone(),
        }
    }

    /// The type of the value.
    pub fn val_to_type(&self) -> (t: DBType)
        ensures
            t == type_of(self@),
    {
        match self {
            DBValue::Integer(_) => DBType::Integer,
            DBValue::Text(_) => DBType::Text,
        }
    }
}

/// The types of the values of a row, in order.
pub open spec fn types_of(row: Seq<ValueView>) -> Seq<DBType> {
    Seq::new(row.len(), |i: int| type_of(row[i]))
}

/// The index of the first name at or after `from` that equals `id`.
pub open spec fn first_index(names: Seq<Seq<char>>, id: Seq<char>, from: int) -> Option<int>
    decreases names.len() - from,
{
    if from >= names.len() {
        None
    } else if names[from] == id {
        Some(from)
    } else {
        first_index(names, id, from + 1)
    }
}

/// A first index is an index of the name, and no index before it is.
pub proof fn lemma_first_index(names: Seq<Seq<char>>, id: Seq<char>, from: int)
    requires
        0 <= from,
    ensures
        match first_index(names, id, from) {
            Some(i) => from <= i < names.len() && names[i] == id && forall|j: int|
                from <= j < i ==> names[j] != id,
            None => forall|j: int| from <= j < names.len() ==> names[j] != id,
        },
    decreases names.len() - from,
{
    if from < names.len() && names[from] != id {
        lemma_first_index(names, id, from + 1);
    }
}

/// The first index of a name among names with one more at the end.
pub proof fn lemma_first_index_push(names: Seq<Seq<char>>, x: Seq<char>, id: Seq<char>, from: int)
    requires
        0 <= from <= names.len(),
    ensures
        first_index(names.push(x), id, from) == match first_index(names, id, from) {
            Some(i) => Some(i),
            None => if x == id {
                Some(names.len() as int)
            } else {
                None
            },
        },
    decreases names.len() - from,
{
    let more = names.push(x);
    if from < names.len() {
        assert(more[from] == names[from]);
        if names[from] != id {
            lemma_first_index_push(names, x, id, from + 1);
        }
    } else {
        assert(more[from] == x);
        assert(first_index(more, id, from + 1) is None);
    }
}

/// Whether two string slices hold the same characters.
pub fn str_eq(a: &str, b: &str) -> (r: bool)
    ensures
        r == (a@ == b@),
{
    let x = a.as_bytes();
    let y = b.as_bytes();
    if x.len() != y.len() {
        return false;
    }
    let mut i: usize = 0;
    while i < x.len()
        invariant
            i <= x.len(),
            x.len() == y.len(),
            x@ == encode_utf8(a@),
            y@ == encode_utf8(b@),
            forall|j: int| 0 <= j < i ==> x@[j] == y@[j],
        decreases x.len() - i,
    {
        if x[i] != y[i] {
            return false;
        }
        i += 1;
    }
    proof {
        assert(x@ =~= y@);
        encode_utf8_decode_utf8(a@);
        encode_utf8_decode_utf8(b@);
    }
    true
}

/// An ordered list of named, typed columns.
#[derive(Debug)]
pub struct Schema {
    schema: Vec<(String, DBType)>,
}

impl View for Schema {
    type V = Seq<(Seq<char>, DBType)>;

    closed spec fn view(&self) -> Seq<(Seq<char>, DBType)> {
        self.schema.deep_view()
    }
}

impl Schema {
    /// The column names, in column order.
    pub open spec fn names(&self) -> Seq<Seq<char>> {
        Seq::new(self@.len(), |i: int| self@[i].0)
    }

    /// The column types, in column order.
    pub open spec fn types(&self) -> Seq<DBType> {
        Seq::new(self@.len(), |i: int| self@[i].1)
    }

    /// A schema without columns.
    pub fn new() -> (r: Self)
        ensures
            r@ == Seq::<(Seq<char>, DBType)>::empty(),
    {
        let r = Self { schema: Vec::new() };
        assert(r@ =~= Seq::empty());
        r
    }

    /// The schema of the given columns, in their order.
    pub fn from(schema: Vec<(String, DBType)>) -> (r: Self)
        ensures
            r@ == schema.deep_view(),
    {
        Self { schema }
    }

    /// Number of columns.
    pub fn len(&self) -> (n: usize)
        ensures
            n == self@.len(),
    {
        self.schema.len()
    }

    /// Type of column `i`.
    pub fn column_type(&self, i: usize) -> (t: DBType)
        requires
            i < self@.len(),
        ensures
            t == self@[i as int].1,
    {
        self.schema[i].1
    }

    /// Name of column `i`.
    pub fn column_name(&self, i: usize) -> (name: &str)
        requires
            i < self@.len(),
        ensures
            name@ == self@[i as int].0,
    {
        self.schema[i].0.as_str()
    }

    /// Whether the two schemas have the same columns.
    pub fn same_columns(&self, other: &Schema) -> (r: bool)
        ensures
            r == (self@ == other@),
    {
        let n: usize = self.schema.len();
        if n != other.schema.len() {
            return false;
        }
        let mut i: usize = 0;
        while i < n
            invariant
                i <= n,
                n == self@.len(),
                n == other@.len(),
                forall|j: int| 0 <= j < i ==> self@[j] == other@[j],
            decreases n - i,
        {
            if !str_eq(self.schema[i].0.as_str(), other.schema[i].0.as_str()) || self.schema[i].1
                != other.schema[i].1 {
                assert(self@[i as int] != other@[i as int]);
                return false;
            }
            i += 1;
        }
        assert(self@ =~= other@);
        true
    }

    /// The type of the first column named `id`.
    pub fn get_field_type(&self, id: &str) -> (r: Option<DBType>)
        ensures
            r == match first_index(self.names(), id@, 0) {
                Some(i) => Some(self@[i].1),
                None => None,
            },
    {
        let n: usize = self.schema.len();
        let mut i: usize = 0;
        while i < n
            invariant
                i <= n,
                n == self@.len(),
                first_index(self.names(), id@, 0) == first_index(self.names(), id@, i as int),
            decreases n - i,
        {
            if str_eq(self.schema[i].0.as_str(), id) {
                return Some(self.schema[i].1);
            }
            i += 1;
        }
        None
    }

    /// The index of the first column of each given name, where each name is the name of a column.
    pub fn get_column_indices(&self, columns: Vec<String>) -> (r: Option<Vec<usize>>)
        ensures
            r is Some <==> forall|j: int|
                0 <= j < columns.len() ==> first_index(self.names(), #[trigger] columns[j]@, 0)
                    is Some,
            match r {
                Some(indices) => {
                    &&& indices.len() == columns.len()
                    &&& forall|j: int|
                        0 <= j < columns.len() ==> first_index(self.names(), columns[j]@, 0)
                            == Some(#[trigger] indices[j] as int)
                },
                None => true,
            },
    {
        let mut indices: Vec<usize> = Vec::new();
        let mut j: usize = 0;
        while j < columns.len()
            invariant
                j <= columns.len(),
                indices.len() == j,
                forall|k: int|
                    0 <= k < j ==> first_index(self.names(), #[trigger] columns[k]@, 0) is Some,
                forall|k: int|
                    0 <= k < j ==> first_index(self.names(), columns[k]@, 0) == Some(
                        #[trigger] indices[k] as int,
                    ),
            decreases columns.len() - j,
        {
            match self.position(columns[j].as_str()) {
                Some(index) => indices.push(index),
                None => {
                    return None;
                },
            }
            j += 1;
        }
        Some(indices)
    }

    /// Index of the first column named `id`.
    pub fn position(&self, id: &str) -> (r: Option<usize>)
        ensures
            match r {
                Some(i) => first_index(self.names(), id@, 0) == Some(i as int),
                None => first_index(self.names(), id@, 0) is None,
            },
    {
        let n: usize = self.schema.len();
        let mut i: usize = 0;
        while i < n
            invariant
                i <= n,
                n == self@.len(),
                first_index(self.names(), id@, 0) == first_index(self.names(), id@, i as int),
            decreases n - i,
        {
            if str_eq(self.schema[i].0.as_str(), id) {
                return Some(i);
            }
            i += 1;
        }
        None
    }

    /// Succeeds where `columns` are the types of the columns, in their order.
    pub fn type_check(&self, columns: Vec<DBType>) -> (r: Option<()>)
        ensures
            r is Some <==> columns@ == self.types(),
    {
        if columns.len() != self.schema.len() {
            return None;
        }
        let n: usize = columns.len();
        let mut i: usize = 0;
        while i < n
            invariant
                i <= n,
                n == columns.len(),
                n == self@.len(),
                forall|k: int| 0 <= k < i ==> columns[k] == self.types()[k],
            decreases n - i,
        {
            if self.schema[i].1 != columns[i] {
                assert(columns[i as int] != self.types()[i as int]);
                return None;
            }
            i += 1;
        }
        assert(columns@ =~= self.types());
        Some(())
    }
}

/// The mathematical content of a [`Table`].
pub struct TableView {
    pub schema: Seq<(Seq<char>, DBType)>,
    pub rows: Seq<Seq<ValueView>>,
}

/// A schema and the rows stored under it.
#[derive(Debug)]
pub struct Table {
    schema: Schema,
    rows: Vec<Row>,
}

impl View for Table {
    type V = TableView;

    closed spec fn view(&self) -> TableView {
        TableView { schema: self.schema@, rows: self.rows.deep_view() }
    }
}

impl Table {
    /// The rows as they are held, in insertion order.
    pub closed spec fn spec_rows(&self) -> Vec<Row> {
        self.rows
    }

    /// The schema as it is held.
    pub closed spec fn spec_schema(&self) -> Schema {
        self.schema
    }

    /// The view is made of the views of the schema and of the rows.
    pub broadcast proof fn view_of_parts(&self)
        ensures
            #[trigger] self@ == (TableView {
                schema: self.spec_schema()@,
                rows: self.spec_rows().deep_view(),
            }),
    {
    }

    /// A table of the given columns, without rows.
    pub fn new(schema: Schema) -> (r: Self)
        ensures
            r@ == (TableView { schema: schema@, rows: Seq::empty() }),
            r.spec_schema() == schema,
    {
        let r = Self { schema, rows: Vec::new() };
        assert(r.rows.deep_view() =~= Seq::empty());
        r
    }

    /// The columns of the table.
    pub fn schema(&self) -> (r: &Schema)
        ensures
            *r == self.spec_schema(),
            r@ == self@.schema,
    {
        &self.schema
    }

    /// The rows of the table, in the order in which they were added.
    pub fn rows(&self) -> (r: &Vec<Row>)
        ensures
            *r == self.spec_rows(),
            r.deep_view() == self@.rows,
    {
        &self.rows
    }

    /// The rows of the table, for reading and writing.
    pub fn rows_mut(&mut self) -> (r: &mut Vec<Row>)
        ensures
            *r == old(self).spec_rows(),
            final(self).spec_rows() == *final(r),
            final(self).spec_schema() == old(self).spec_schema(),
    {
        &mut self.rows
    }

    /// Adds a row behind the rows of the table.
    pub fn push(&mut self, row: Row)
        ensures
            final(self).spec_rows()@ == old(self).spec_rows()@.push(row),
            final(self).spec_schema() == old(self).spec_schema(),
            final(self)@ == (TableView {
                schema: old(self)@.schema,
                rows: old(self)@.rows.push(row.deep_view()),
            }),
    {
        self.rows.push(row);
        assert(self.rows.deep_view() =~= old(self).rows.deep_view().push(row.deep_view()));
    }
}

/// A named collection of tables.
pub struct Database {
    name: String,
    tables: Vec<(String, Table)>,
}

impl Database {
    /// The names of the tables, in the order in which they are held.
    pub closed spec fn names(&self) -> Seq<Seq<char>> {
        Seq::new(self.tables@.len(), |i: int| self.tables@[i].0@)
    }

    /// The tables, in the order in which they are held.
    pub closed spec fn tables(&self) -> Seq<Table> {
        Seq::new(self.tables@.len(), |i: int| self.tables@[i].1)
    }

    /// The name of the database.
    pub closed spec fn name(&self) -> Seq<char> {
        self.name@
    }

    /// A database that holds the given tables under the given names.
    pub fn new(name: String, tables: Vec<(String, Table)>) -> (r: Self)
        ensures
            r.name() == name@,
            r.names() == Seq::new(tables@.len(), |i: int| tables@[i].0@),
            r.tables() == Seq::new(tables@.len(), |i: int| tables@[i].1),
    {
        Self { name, tables }
    }

    /// The first table named `id`, for reading and writing.
    pub fn get_table(&mut self, id: &str) -> (r: Option<&mut Table>)
        ensures
            final(self).name() == old(self).name(),
            final(self).names() == old(self).names(),
            match r {
                Some(table) => {
                    &&& first_index(old(self).names(), id@, 0) is Some
                    &&& *table == old(self).tables()[first_index(old(self).names(), id@, 0)->0]
                    &&& final(self).tables() == old(self).tables().update(
                        first_index(old(self).names(), id@, 0)->0,
                        *final(table),
                    )
                },
                None => {
                    &&& first_index(old(self).names(), id@, 0) is None
                    &&& final(self).tables() == old(self).tables()
                },
            },
    {
        let n: usize = self.tables.len();
        let mut i: usize = 0;
        while i < n
            invariant
                i <= n,
                n == self.tables@.len(),
                *self == *old(self),
                first_index(self.names(), id@, 0) == first_index(self.names(), id@, i as int),
            decreases n - i,
        {
            if str_eq(self.tables[i].0.as_str(), id) {
                return Some(&mut self.tables[i].1);
            }
            i += 1;
        }
        None
    }
}

} // verus!
