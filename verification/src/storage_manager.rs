//! The table registry: tables by name, rows checked against the schema
//! of their table, and queries that pick columns.

use vstd::prelude::*;
use vstd::string::*;
use crate::db::DBType;
use crate::db::DBValue;
use crate::db::Row;
use crate::db::Schema;
use crate::db::Table;
use crate::db::TableView;
use crate::db::ValueView;
use crate::db::first_index;
use crate::db::lemma_first_index;
use crate::db::lemma_first_index_push;
use crate::db::str_eq;
use crate::db::types_of;
use crate::parser::Statement;
use crate::parser::StatementView;

verus! {

/// Why a statement could not be carried out.
#[derive(Clone, Copy, Debug, PartialEq, Eq, Structural)]
pub enum StorageError {
    TableNotFound,
    SchemaMismatch,
    TypeError,
    TableNameAlreadyInUse,
}

impl StorageError {
    /// What the error says.
    pub open spec fn message(self) -> Seq<char> {
        match self {
            StorageError::TableNotFound => "Table not found"@,
            StorageError::SchemaMismatch => "Schema mismatch"@,
            StorageError::TypeError => "Type error"@,
            StorageError::TableNameAlreadyInUse => "Table name already in use"@,
        }
    }

    /// What the error says.
    pub fn to_string(&self) -> (r: String)
        ensures
            r@ == self.message(),
    {
        match self {
            StorageError::TableNotFound => "Table not found".to_owned(),
            StorageError::SchemaMismatch => "Schema mismatch".to_owned(),
            StorageError::TypeError => "Type error".to_owned(),
            StorageError::TableNameAlreadyInUse => "Table name already in use".to_owned(),
        }
    }
}

/// The tables of a database, each under its name.
#[derive(Debug)]
pub struct StorageManager {
    tables: Vec<(String, Table)>,
}

/// The types of the columns of a table.
pub open spec fn column_types(t: TableView) -> Seq<DBType> {
    Seq::new(t.schema.len(), |i: int| t.schema[i].1)
}

/// The names of the columns of a table.
pub open spec fn column_names(t: TableView) -> Seq<Seq<char>> {
    Seq::new(t.schema.len(), |i: int| t.schema[i].0)
}

/// Whether every row of the table has the types of its columns.
pub open spec fn rows_typed(t: TableView) -> bool {
    forall|r: int| 0 <= r < t.rows.len() ==> types_of(#[trigger] t.rows[r]) == column_types(t)
}

/// The values of `row` at the places `indices`, in that order.
pub open spec fn project(row: Seq<ValueView>, indices: Seq<int>) -> Seq<ValueView> {
    Seq::new(indices.len(), |j: int| row[indices[j]])
}

/// The places of the columns named `columns` among `names`.
pub open spec fn places(names: Seq<Seq<char>>, columns: Seq<Seq<char>>) -> Seq<int> {
    Seq::new(columns.len(), |j: int| first_index(names, columns[j], 0)->0)
}

impl View for StorageManager {
    type V = Map<Seq<char>, TableView>;

    /// The tables by name.
    closed spec fn view(&self) -> Map<Seq<char>, TableView> {
        Map::new(
            |name: Seq<char>| first_index(self.names(), name, 0) is Some,
            |name: Seq<char>| self.tables@[first_index(self.names(), name, 0)->0].1@,
        )
    }
}

impl StorageManager {
    /// The names of the tables, in the order in which they were created.
    pub closed spec fn names(&self) -> Seq<Seq<char>> {
        Seq::new(self.tables@.len(), |i: int| self.tables@[i].0@)
    }

    /// Whether the registry is well formed: no name is used twice, and
    /// every row has the types of the columns of its table.
    pub closed spec fn wf(&self) -> bool {
        &&& forall|i: int, j: int|
            0 <= i < j < self.tables@.len() ==> self.tables@[i].0@ != self.tables@[j].0@
        &&& forall|i: int| 0 <= i < self.tables@.len() ==> rows_typed(#[trigger] self.tables@[i].1@)
    }

    /// Every row of every table of a well-formed registry has the types
    /// of the columns of its table.
    pub proof fn lemma_rows_typed(&self, name: Seq<char>)
        requires
            self.wf(),
            self@.dom().contains(name),
        ensures
            rows_typed(self@[name]),
    {
        lemma_first_index(self.names(), name, 0);
    }

    /// A registry without tables.
    pub fn new() -> (r: Self)
        ensures
            r.wf(),
            r@ == Map::<Seq<char>, TableView>::empty(),
            r.names() == Seq::<Seq<char>>::empty(),
    {
        let r = StorageManager { tables: Vec::new() };
        assert(r.names() =~= Seq::empty());
        assert(r@ =~= Map::empty());
        r
    }

    /// The index of the table named `name`.
    fn position(&self, name: &str) -> (r: Option<usize>)
        ensures
            match r {
                Some(i) => first_index(self.names(), name@, 0) == Some(i as int) && i
                    < self.tables@.len(),
                None => first_index(self.names(), name@, 0) is None,
            },
    {
        let n: usize = self.tables.len();
        let mut i: usize = 0;
        while i < n
            invariant
                i <= n,
                n == self.tables@.len(),
                first_index(self.names(), name@, 0) == first_index(self.names(), name@, i as int),
            decreases n - i,
        {
            if str_eq(self.tables[i].0.as_str(), name) {
                return Some(i);
            }
            i += 1;
        }
        None
    }

    /// Adds an empty table under a name that is not in use.
    pub fn create_table(&mut self, name: String, schema: Schema) -> (r: Result<(), StorageError>)
        requires
            old(self).wf(),
        ensures
            final(self).wf(),
            match r {
                Ok(_) => {
                    &&& !old(self)@.dom().contains(name@)
                    &&& final(self)@ == old(self)@.insert(
                        name@,
                        TableView { schema: schema@, rows: Seq::empty() },
                    )
                    &&& final(self).names() == old(self).names().push(name@)
                },
                Err(e) => {
                    &&& e == StorageError::TableNameAlreadyInUse
                    &&& old(self)@.dom().contains(name@)
                    &&& final(self)@ == old(self)@
                    &&& final(self).names() == old(self).names()
                },
            },
    {
        if self.position(name.as_str()).is_some() {
            return Err(StorageError::TableNameAlreadyInUse);
        }
        let table = Table::new(schema);
        let ghost tv = table@;
        self.tables.push((name, table));
        proof {
            let n0 = old(self).names();
            lemma_first_index(n0, name@, 0);
            assert(self.names() =~= n0.push(name@));
            let n = old(self).tables@.len() as int;
            assert(self.tables@[n].1@ == tv);
            assert forall|k: int| 0 <= k < n implies self.tables@[k] == old(self).tables@[k] by {}
            assert forall|i: int, j: int| 0 <= i < j < self.tables@.len() implies self.tables@[i].0@
                != self.tables@[j].0@ by {
                if j == n {
                    assert(n0[i] != name@);
                }
            }
            assert(tv.rows.len() == 0);
            let m2 = old(self)@.insert(name@, tv);
            assert forall|id: Seq<char>| #[trigger]
                self@.dom().contains(id) == m2.dom().contains(id) && (self@.dom().contains(id)
                    ==> self@[id] == m2[id]) by {
                lemma_first_index_push(n0, name@, id, 0);
                lemma_first_index(n0, id, 0);
                if id != name@ && first_index(n0, id, 0) is Some {
                    let k = first_index(n0, id, 0)->0;
                    assert(self.tables@[k] == old(self).tables@[k]);
                }
            }
            assert forall|id: Seq<char>| #[trigger] m2.dom().contains(id) implies self@.dom().contains(
                id,
            ) by {
                assert(self@.dom().contains(id) == m2.dom().contains(id));
            }
            assert(self@ =~= old(self)@.insert(name@, tv));
        }
        Ok(())
    }

    /// Adds a row to the table named `table`, where the values have the
    /// types of its columns.
    pub fn insert_into(&mut self, table: String, values: Vec<DBValue>) -> (r: Result<
        (),
        StorageError,
    >)
        requires
            old(self).wf(),
        ensures
            final(self).wf(),
            final(self).names() == old(self).names(),
            match r {
                Ok(_) => {
                    &&& old(self)@.dom().contains(table@)
                    &&& types_of(values.deep_view()) == column_types(old(self)@[table@])
                    &&& final(self)@ == old(self)@.insert(
                        table@,
                        TableView {
                            schema: old(self)@[table@].schema,
                            rows: old(self)@[table@].rows.push(values.deep_view()),
                        },
                    )
                },
                Err(e) => {
                    &&& final(self)@ == old(self)@
                    &&& if !old(self)@.dom().contains(table@) {
                        e == StorageError::TableNotFound
                    } else {
                        e == StorageError::TypeError && types_of(values.deep_view())
                            != column_types(old(self)@[table@])
                    }
                },
            },
    {
        let i = match self.position(table.as_str()) {
            Some(i) => i,
            None => {
                return Err(StorageError::TableNotFound);
            },
        };
        let ghost vv = values.deep_view();
        let ghost t0 = self.tables@[i as int].1@;
        let mut types: Vec<DBType> = Vec::new();
        let mut j: usize = 0;
        while j < values.len()
            invariant
                j <= values.len(),
                types.len() == j,
                vv == values.deep_view(),
                forall|k: int| 0 <= k < j ==> types@[k] == types_of(vv)[k],
            decreases values.len() - j,
        {
            proof {
                assert(vv[j as int] == values@[j as int]@);
            }
            types.push(values[j].val_to_type());
            j += 1;
        }
        proof {
            assert(types@ =~= types_of(vv));
            assert(self.tables@[i as int].1.spec_schema().types() =~= column_types(t0)) by {
                self.tables@[i as int].1.view_of_parts();
            }
        }
        if self.tables[i].1.schema().type_check(types).is_none() {
            return Err(StorageError::TypeError);
        }
        self.tables[i].1.push(values);
        proof {
            let t1 = self.tables@[i as int].1@;
            assert(self.names() =~= old(self).names());
            lemma_first_index(self.names(), table@, 0);
            assert forall|k: int| 0 <= k < self.tables@.len() implies rows_typed(
                #[trigger] self.tables@[k].1@,
            ) by {
                if k == i {
                    assert forall|r: int| 0 <= r < t1.rows.len() implies types_of(
                        #[trigger] t1.rows[r],
                    ) == column_types(t1) by {
                        if r < t0.rows.len() {
                            assert(t1.rows[r] == t0.rows[r]);
                        }
                    }
                } else {
                    assert(self.tables@[k] == old(self).tables@[k]);
                }
            }
            assert forall|id: Seq<char>| #[trigger]
                self@.dom().contains(id) == old(self)@.insert(table@, t1).dom().contains(id)
                    && (self@.dom().contains(id) ==> self@[id] == old(self)@.insert(table@, t1)[id]) by {
                lemma_first_index(self.names(), id, 0);
                if self@.dom().contains(id) && id != table@ {
                    let k = first_index(self.names(), id, 0)->0;
                    assert(self.tables@[k] == old(self).tables@[k]);
                }
            }
            assert(self@ =~= old(self)@.insert(table@, t1));
        }
        Ok(())
    }

    /// The rows of a table, cut down to the columns that a `select`
    /// statement names, in the order in which it names them. Any other
    /// statement gives no rows.
    pub fn query(&self, query: Statement) -> (r: Result<Vec<Row>, StorageError>)
        requires
            self.wf(),
        ensures
            match query@ {
                StatementView::Select { columns, table, .. } => if !self@.dom().contains(table) {
                    r == Err::<Vec<Row>, StorageError>(StorageError::TableNotFound)
                } else if exists|j: int|
                    0 <= j < columns.len() && first_index(
                        column_names(self@[table]),
                        #[trigger] columns[j],
                        0,
                    ) is None {
                    r == Err::<Vec<Row>, StorageError>(StorageError::SchemaMismatch)
                } else {
                    r is Ok && r->Ok_0.deep_view() == Seq::new(
                        self@[table].rows.len(),
                        |i: int|
                            project(
                                self@[table].rows[i],
                                places(column_names(self@[table]), columns),
                            ),
                    )
                },
                _ => r is Ok && r->Ok_0.deep_view() == Seq::<Seq<ValueView>>::empty(),
            },
    {
        if let Statement::Select { columns, table, .. } = query {
            let ghost cols = columns.deep_view();
            let i = match self.position(table.as_str()) {
                Some(i) => i,
                None => {
                    return Err(StorageError::TableNotFound);
                },
            };
            let held = &self.tables[i].1;
            let ghost tv = held@;
            let ghost names = column_names(tv);
            proof {
                lemma_first_index(self.names(), table@, 0);
                held.view_of_parts();
                assert(held.spec_schema().names() =~= names);
                assert forall|j: int| 0 <= j < columns.len() implies #[trigger] columns[j]@
                    == cols[j] by {}
            }
            let indices = match held.schema().get_column_indices(columns) {
                Some(indices) => indices,
                None => {
                    proof {
                        let j = choose|j: int|
                            0 <= j < columns.len() && !(first_index(
                                names,
                                #[trigger] columns[j]@,
                                0,
                            ) is Some);
                        assert(first_index(names, cols[j], 0) is None);
                    }
                    return Err(StorageError::SchemaMismatch);
                },
            };
            let ghost idx = places(names, cols);
            proof {
                assert forall|j: int| 0 <= j < cols.len() implies first_index(
                    names,
                    #[trigger] cols[j],
                    0,
                ) is Some by {
                    assert(first_index(names, columns[j]@, 0) is Some);
                }
                assert forall|j: int| 0 <= j < indices.len() implies indices[j] == idx[j] && 0
                    <= idx[j] < names.len() by {
                    assert(first_index(names, columns[j]@, 0) == Some(indices[j] as int));
                    lemma_first_index(names, cols[j], 0);
                }
            }
            let rows = held.rows();
            let mut view: Vec<Row> = Vec::new();
            let mut r: usize = 0;
            while r < rows.len()
                invariant
                    r <= rows.len(),
                    view.len() == r,
                    rows.deep_view() == tv.rows,
                    rows_typed(tv),
                    names == column_names(tv),
                    indices.len() == idx.len(),
                    forall|j: int|
                        0 <= j < indices.len() ==> indices[j] == idx[j] && 0 <= idx[j]
                            < names.len(),
                    forall|q: int|
                        0 <= q < r ==> (#[trigger] view@[q]).deep_view() == project(
                            tv.rows[q],
                            idx,
                        ),
                decreases rows.len() - r,
            {
                let row = &rows[r];
                proof {
                    assert(rows.deep_view()[r as int] == row.deep_view());
                    assert(types_of(tv.rows[r as int]).len() == column_types(tv).len());
                }
                let mut row_view: Row = Vec::new();
                let mut j: usize = 0;
                while j < indices.len()
                    invariant
                        j <= indices.len(),
                        row_view.len() == j,
                        row.len() == names.len(),
                        indices.len() == idx.len(),
                        forall|q: int|
                            0 <= q < indices.len() ==> indices[q] == idx[q] && 0 <= idx[q]
                                < names.len(),
                        forall|q: int|
                            0 <= q < j ==> (#[trigger] row_view@[q])@ == row.deep_view()[idx[q]],
                    decreases indices.len() - j,
                {
                    assert(indices[j as int] == idx[j as int] && 0 <= idx[j as int] < names.len());
                    let value = row[indices[j]].clone();
                    proof {
                        assert(row.deep_view()[idx[j as int]] == row@[idx[j as int]]@);
                    }
                    row_view.push(value);
                    j += 1;
                }
                proof {
                    assert(row_view.deep_view() =~= project(tv.rows[r as int], idx));
                }
                view.push(row_view);
                r += 1;
            }
            proof {
                assert(view.deep_view() =~= Seq::new(
                    tv.rows.len(),
                    |i: int| project(tv.rows[i], idx),
                ));
            }
            Ok(view)
        } else {
            let view: Vec<Row> = Vec::new();
            assert(view.deep_view() =~= Seq::<Seq<ValueView>>::empty());
            Ok(view)
        }
    }
}

} // verus!
