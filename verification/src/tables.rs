//! Descriptions of tables and of the rows to fill them with, and the
//! statements that they give.

use crate::text::{join, joined, push_str, texts_of};
use crate::values::{is_renderable, sql_literal, value_as_sql, SqlValue, SqlValueView};
use crate::paths::{node_count, shortest_path, PathGraph};
use rand::distributions::Alphanumeric;
use rand::Rng;
use vstd::prelude::*;
use vstd::slice::slice_to_vec;
use vstd::utf8::encode_utf8;

verus! {

pub type TableName = String;

pub type ColName = String;

/// `Rng::gen_range` on the thread-local generator: a number drawn from
/// `[low, high)`. It panics on an empty range.
#[verifier::external_body]
fn random_in_range(low: usize, high: usize) -> (r: usize)
    requires
        low < high,
    ensures
        low <= r < high,
{
    rand::thread_rng().gen_range(low..high)
}

/// `Rng::sample_iter` over `Alphanumeric` on the thread-local generator:
/// `len` bytes, each an ASCII letter or digit.
#[verifier::external_body]
fn random_alphanumeric(len: usize) -> (r: Vec<u8>)
    ensures
        r@.len() == len,
        forall|i: int| 0 <= i < r@.len() ==> is_alphanumeric(#[trigger] r@[i]),
{
    rand::thread_rng().sample_iter(&Alphanumeric).take(len).collect()
}

/// An ASCII letter or digit.
pub open spec fn is_alphanumeric(byte: u8) -> bool {
    ||| 48 <= byte <= 57
    ||| 65 <= byte <= 90
    ||| 97 <= byte <= 122
}

/// An ASCII digit.
pub open spec fn is_digit(byte: u8) -> bool {
    48 <= byte <= 57
}

/// How to make a value for a new row.
#[derive(Clone)]
pub enum ValueSpec {
    ConstNum(u64),
    ConstStr(String),
    RandNum { lb: usize, ub: usize },
    RandStr { len: usize },
    RandEmail,
    RandPhone,
    ConstDate { year: u16, month: u8, day: u8 },
    Bool(bool),
    Null,
}

/// A value can be made after `vs`: a range to draw a number from is not
/// empty.
pub open spec fn is_satisfiable(vs: ValueSpec) -> bool {
    vs matches ValueSpec::RandNum { lb, ub } ==> lb < ub
}

/// `value` is one of the values that `vs` describes.
pub open spec fn is_value_of(vs: ValueSpec, value: SqlValueView) -> bool {
    match vs {
        ValueSpec::ConstNum(n) => value == SqlValueView::UInt(n),
        ValueSpec::ConstStr(s) => value == SqlValueView::Bytes(encode_utf8(s@)),
        ValueSpec::RandNum { lb, ub } => value matches SqlValueView::UInt(n) && lb <= n < ub,
        ValueSpec::RandStr { len } => value matches SqlValueView::Bytes(bytes) && bytes.len() == len
            && forall|i: int| 0 <= i < bytes.len() ==> is_alphanumeric(#[trigger] bytes[i]),
        ValueSpec::RandEmail => value matches SqlValueView::Bytes(bytes) && bytes.len() >= 20
            && bytes.skip(20) == encode_utf8("@anon.com"@) && forall|i: int|
            0 <= i < 20 ==> is_alphanumeric(#[trigger] bytes[i]),
        ValueSpec::RandPhone => value matches SqlValueView::Bytes(bytes) && bytes.len() == 9
            && forall|i: int| 0 <= i < 9 ==> is_digit(#[trigger] bytes[i]),
        ValueSpec::ConstDate { year, month, day } => value == SqlValueView::Date(
            year,
            month,
            day,
            0,
            0,
            0,
            0,
        ),
        ValueSpec::Bool(b) => value == SqlValueView::Int(
            if b {
                1i64
            } else {
                0i64
            },
        ),
        ValueSpec::Null => value == SqlValueView::Null,
    }
}

/// A value for a new row, made after `vs`.
pub fn valuespec2value(vs: &ValueSpec) -> (r: SqlValue)
    requires
        is_satisfiable(*vs),
    ensures
        is_value_of(*vs, r@),
        is_renderable(r@),
{
    match vs {
        ValueSpec::ConstNum(n) => SqlValue::UInt(*n),
        ValueSpec::ConstStr(s) => SqlValue::Bytes(slice_to_vec(s.as_str().as_bytes())),
        ValueSpec::RandNum { lb, ub } => SqlValue::UInt(random_in_range(*lb, *ub) as u64),
        ValueSpec::RandStr { len } => SqlValue::Bytes(random_alphanumeric(*len)),
        ValueSpec::RandEmail => {
            let mut bytes = random_alphanumeric(20);
            let ghost name = bytes@;
            let suffix = "@anon.com".as_bytes();
            let mut i: usize = 0;
            while i < suffix.len()
                invariant
                    0 <= i <= suffix@.len(),
                    bytes@ == name + suffix@.take(i as int),
                decreases suffix@.len() - i,
            {
                bytes.push(suffix[i]);
                proof {
                    assert(suffix@.take(i + 1) =~= suffix@.take(i as int).push(suffix@[i as int]));
                }
                i = i + 1;
            }
            proof {
                assert(suffix@.take(suffix@.len() as int) =~= suffix@);
                assert(bytes@.skip(20) =~= suffix@);
                assert forall|k: int| 0 <= k < 20 implies is_alphanumeric(#[trigger] bytes@[k]) by {
                    assert(bytes@[k] == name[k]);
                }
            }
            SqlValue::Bytes(bytes)
        },
        ValueSpec::RandPhone => {
            let mut bytes: Vec<u8> = Vec::new();
            let mut i: usize = 0;
            while i < 9
                invariant
                    0 <= i <= 9,
                    bytes@.len() == i,
                    forall|k: int| 0 <= k < i ==> is_digit(#[trigger] bytes@[k]),
                decreases 9 - i,
            {
                let idx = random_in_range(0, 10);
                bytes.push(48 + idx as u8);
                i = i + 1;
            }
            SqlValue::Bytes(bytes)
        },
        ValueSpec::Bool(b) => if *b {
            SqlValue::Int(1)
        } else {
            SqlValue::Int(0)
        },
        ValueSpec::ConstDate { year, month, day } => SqlValue::Date(*year, *month, *day, 0, 0, 0, 0),
        ValueSpec::Null => SqlValue::Null,
    }
}

/// How to make new rows for one table.
pub struct TableSpec {
    pub table: TableName,
    pub columns: Vec<ColName>,
    pub values: Vec<ValueSpec>,
}

/// How to make new objects of a kind, and the column that identifies them.
pub struct ObjectSpec {
    pub id: (TableName, ColName),
    pub tables: Vec<TableSpec>,
}

/// The statement that inserts a row of `values` into the `columns` of
/// `table`.
pub open spec fn insert_text(table: Seq<char>, columns: Seq<Seq<char>>, values: Seq<Seq<char>>) -> Seq<
    char,
> {
    "INSERT INTO "@ + table + " ("@ + joined(columns, ","@) + ") VALUES ("@ + joined(values, ","@)
        + ")"@
}

/// The first index from `from` on at which `columns` holds `col`.
pub open spec fn position(columns: Seq<Seq<char>>, col: Seq<char>, from: int) -> Option<int>
    decreases columns.len() - from,
{
    if from < 0 || from >= columns.len() {
        None
    } else if columns[from] == col {
        Some(from)
    } else {
        position(columns, col, from + 1)
    }
}

/// The value that a new row of `table` has in the identifying column, where
/// `return_id` names this table and one of its columns.
pub open spec fn returned_id(
    table: Seq<char>,
    columns: Seq<Seq<char>>,
    values: Seq<Seq<char>>,
    return_id: Option<(Seq<char>, Seq<char>)>,
) -> Option<Seq<char>> {
    match return_id {
        Some((tab, col)) => if table == tab {
            match position(columns, col, 0) {
                Some(i) => Some(values[i]),
                None => None,
            }
        } else {
            None
        },
        None => None,
    }
}

/// Where `return_id` names this table and one of its columns, that column
/// is one of the first `count`: so that a row of `count` values has a value
/// in it.
pub open spec fn has_id_value(
    table: Seq<char>,
    columns: Seq<Seq<char>>,
    count: nat,
    return_id: Option<(Seq<char>, Seq<char>)>,
) -> bool {
    match return_id {
        Some((tab, col)) => table == tab ==> (position(columns, col, 0) matches Some(i) ==> i
            < count),
        None => true,
    }
}

/// The first index at which `columns` holds `col`.
fn first_position(columns: &Vec<String>, col: &String) -> (r: Option<usize>)
    ensures
        match position(texts_of(columns@), col@, 0) {
            Some(i) => r is Some && r.unwrap() == i && 0 <= i < columns@.len(),
            None => r is None,
        },
{
    let ghost texts = texts_of(columns@);
    let mut i: usize = 0;
    while i < columns.len()
        invariant
            0 <= i <= columns@.len(),
            texts == texts_of(columns@),
            position(texts, col@, 0) == position(texts, col@, i as int),
        decreases columns@.len() - i,
    {
        proof {
            assert(texts[i as int] == columns@[i as int]@);
        }
        if columns[i].eq(col) {
            return Some(i);
        }
        i = i + 1;
    }
    None
}

/// A table and a column as plain data.
pub open spec fn id_view(id: Option<&(TableName, ColName)>) -> Option<(Seq<char>, Seq<char>)> {
    match id {
        Some(pair) => Some((pair.0@, pair.1@)),
        None => None,
    }
}

/// An optional string as plain data.
pub open spec fn text_view(text: Option<String>) -> Option<Seq<char>> {
    match text {
        Some(t) => Some(t@),
        None => None,
    }
}

/// The literals of a row of values.
pub open spec fn literals_of(row: Seq<SqlValueView>) -> Seq<Seq<char>> {
    row.map_values(|v: SqlValueView| sql_literal(v))
}

impl TableSpec {
    /// A row can be made and its identifier returned: every value can be
    /// made, and there is one in the identifying column, where `return_id`
    /// names this table and one of its columns.
    pub open spec fn wf(&self, return_id: Option<(Seq<char>, Seq<char>)>) -> bool {
        &&& has_id_value(self.table@, texts_of(self.columns@), self.values@.len(), return_id)
        &&& forall|i: int| 0 <= i < self.values@.len() ==> is_satisfiable(#[trigger] self.values@[i])
    }

    /// `row` is a row that can be made for this table.
    pub open spec fn is_row(&self, row: Seq<SqlValueView>) -> bool {
        &&& row.len() == self.values@.len()
        &&& forall|i: int|
            0 <= i < row.len() ==> is_value_of(self.values@[i], #[trigger] row[i]) && is_renderable(
                row[i],
            )
    }

    /// Whether a row can be made and its identifier returned.
    pub fn is_usable(&self, return_id: Option<&(TableName, ColName)>) -> (r: bool)
        ensures
            r == self.wf(id_view(return_id)),
    {
        let mut i: usize = 0;
        while i < self.values.len()
            invariant
                0 <= i <= self.values@.len(),
                forall|k: int| 0 <= k < i ==> is_satisfiable(#[trigger] self.values@[k]),
            decreases self.values@.len() - i,
        {
            match &self.values[i] {
                ValueSpec::RandNum { lb, ub } => {
                    if *lb >= *ub {
                        return false;
                    }
                },
                _ => {},
            }
            i = i + 1;
        }
        match return_id {
            Some(pair) => {
                if self.table.eq(&pair.0) {
                    match first_position(&self.columns, &pair.1) {
                        Some(found) => found < self.values.len(),
                        None => true,
                    }
                } else {
                    true
                }
            },
            None => true,
        }
    }

    /// The statement that inserts the row with the literals `values`, and the
    /// literal in the identifying column where `return_id` names this table
    /// and one of its columns.
    pub fn insert_statement(&self, values: &Vec<String>, return_id: Option<&(TableName, ColName)>)
        -> (r: (String, Option<String>))
        requires
            has_id_value(
                self.table@,
                texts_of(self.columns@),
                values@.len(),
                id_view(return_id),
            ),
        ensures
            r.0@ == insert_text(self.table@, texts_of(self.columns@), texts_of(values@)),
            text_view(r.1) == returned_id(
                self.table@,
                texts_of(self.columns@),
                texts_of(values@),
                id_view(return_id),
            ),
    {
        let mut ret: Option<String> = None;
        match return_id {
            Some(pair) => {
                if self.table.eq(&pair.0) {
                    match first_position(&self.columns, &pair.1) {
                        Some(found) => {
                            proof {
                                assert(texts_of(values@)[found as int] == values@[found as int]@);
                            }
                            ret = Some(values[found].clone());
                        },
                        None => {},
                    }
                }
            },
            None => {},
        }
        let mut q = "INSERT INTO ".to_owned();
        push_str(&mut q, self.table.as_str());
        push_str(&mut q, " (");
        push_str(&mut q, join(&self.columns, ",").as_str());
        push_str(&mut q, ") VALUES (");
        push_str(&mut q, join(values, ",").as_str());
        push_str(&mut q, ")");
        (q, ret)
    }

    /// Makes a new row: the statement that inserts it, and its literal in the
    /// identifying column where `return_id` names this table and one of its
    /// columns.
    pub fn insert_row(&self, return_id: Option<&(TableName, ColName)>) -> (r: (
        String,
        Option<String>,
    ))
        requires
            self.wf(id_view(return_id)),
        ensures
            exists|row: Seq<SqlValueView>| #[trigger]
                self.is_row(row) && r.0@ == insert_text(
                    self.table@,
                    texts_of(self.columns@),
                    literals_of(row),
                ) && text_view(r.1) == returned_id(
                    self.table@,
                    texts_of(self.columns@),
                    literals_of(row),
                    id_view(return_id),
                ),
    {
        let mut values: Vec<String> = Vec::new();
        let ghost mut row: Seq<SqlValueView> = Seq::empty();
        let mut i: usize = 0;
        while i < self.values.len()
            invariant
                0 <= i <= self.values@.len(),
                self.wf(id_view(return_id)),
                row.len() == i,
                texts_of(values@) == literals_of(row),
                forall|k: int|
                    0 <= k < i ==> is_value_of(self.values@[k], #[trigger] row[k]) && is_renderable(
                        row[k],
                    ),
            decreases self.values@.len() - i,
        {
            let value = valuespec2value(&self.values[i]);
            let literal = value_as_sql(&value);
            proof {
                let before = row;
                row = row.push(value@);
                assert(texts_of(values@.push(literal)) =~= literals_of(before).push(literal@));
                assert(literals_of(row) =~= literals_of(before).push(sql_literal(value@)));
            }
            values.push(literal);
            i = i + 1;
        }
        proof {
            assert(self.is_row(row));
        }
        self.insert_statement(&values, return_id)
    }
}

impl ObjectSpec {
    /// A row can be made for every table.
    pub open spec fn wf(&self) -> bool {
        forall|t: int|
            0 <= t < self.tables@.len() ==> (#[trigger] self.tables@[t]).wf(
                Some((self.id.0@, self.id.1@)),
            )
    }

    /// `rows` holds a row that can be made for each table, in order.
    pub open spec fn is_rows(&self, rows: Seq<Seq<SqlValueView>>) -> bool {
        &&& rows.len() == self.tables@.len()
        &&& forall|t: int| 0 <= t < rows.len() ==> self.tables@[t].is_row(#[trigger] rows[t])
    }

    /// The statement that inserts the row `row` into the `t`-th table.
    pub open spec fn statement(&self, t: int, row: Seq<SqlValueView>) -> Seq<char> {
        insert_text(self.tables@[t].table@, texts_of(self.tables@[t].columns@), literals_of(row))
    }

    /// The identifier that the rows of the first `n` tables give the object:
    /// the literal in the identifying column of the last row that has it, the
    /// empty string where none has.
    pub open spec fn object_id(&self, rows: Seq<Seq<SqlValueView>>, n: nat) -> Seq<char>
        decreases n,
    {
        if n == 0 {
            Seq::empty()
        } else {
            match returned_id(
                self.tables@[n - 1].table@,
                texts_of(self.tables@[n - 1].columns@),
                literals_of(rows[n - 1]),
                Some((self.id.0@, self.id.1@)),
            ) {
                Some(id) => id,
                None => self.object_id(rows, (n - 1) as nat),
            }
        }
    }

    /// Whether a row can be made for every table.
    pub fn is_usable(&self) -> (r: bool)
        ensures
            r == self.wf(),
    {
        let mut t: usize = 0;
        while t < self.tables.len()
            invariant
                0 <= t <= self.tables@.len(),
                forall|k: int|
                    0 <= k < t ==> (#[trigger] self.tables@[k]).wf(Some((self.id.0@, self.id.1@))),
            decreases self.tables@.len() - t,
        {
            if !self.tables[t].is_usable(Some(&self.id)) {
                return false;
            }
            t = t + 1;
        }
        true
    }

    /// Makes a new object: the statements that insert a row into each of its
    /// tables, in order, and the object's identifier.
    pub fn insert_rows(&self) -> (r: (Vec<String>, String))
        requires
            self.wf(),
        ensures
            exists|rows: Seq<Seq<SqlValueView>>| #[trigger]
                self.is_rows(rows) && r.0@.len() == rows.len() && r.1@ == self.object_id(
                    rows,
                    rows.len(),
                ) && forall|t: int|
                    0 <= t < rows.len() ==> (#[trigger] r.0@[t])@ == self.statement(t, rows[t]),
    {
        let mut statements: Vec<String> = Vec::new();
        let mut ret = String::new();
        let ghost mut rows: Seq<Seq<SqlValueView>> = Seq::empty();
        let mut t: usize = 0;
        while t < self.tables.len()
            invariant
                0 <= t <= self.tables@.len(),
                self.wf(),
                rows.len() == t,
                statements@.len() == t,
                forall|k: int| 0 <= k < t ==> self.tables@[k].is_row(#[trigger] rows[k]),
                forall|k: int|
                    0 <= k < t ==> (#[trigger] statements@[k])@ == self.statement(k, rows[k]),
                ret@ == self.object_id(rows, t as nat),
            decreases self.tables@.len() - t,
        {
            let ts = &self.tables[t];
            let (q, id) = ts.insert_row(Some(&self.id));
            proof {
                let row = choose|row: Seq<SqlValueView>| #[trigger]
                    ts.is_row(row) && q@ == insert_text(
                        ts.table@,
                        texts_of(ts.columns@),
                        literals_of(row),
                    ) && text_view(id) == returned_id(
                        ts.table@,
                        texts_of(ts.columns@),
                        literals_of(row),
                        id_view(Some(&self.id)),
                    );
                let before = rows;
                rows = rows.push(row);
                assert forall|n: nat| n <= t implies self.object_id(rows, n) == self.object_id(
                    before,
                    n,
                ) by {
                    lemma_object_id_prefix(*self, before, rows, n);
                }
            }
            statements.push(q);
            match id {
                Some(uid) => {
                    ret = uid;
                },
                None => {},
            }
            t = t + 1;
        }
        proof {
            assert(self.is_rows(rows));
        }
        (statements, ret)
    }
}

/// The identifier after `n` tables depends on the rows of those tables only.
pub proof fn lemma_object_id_prefix(
    spec: ObjectSpec,
    a: Seq<Seq<SqlValueView>>,
    b: Seq<Seq<SqlValueView>>,
    n: nat,
)
    requires
        n <= a.len(),
        n <= b.len(),
        forall|k: int| 0 <= k < n ==> a[k] == b[k],
    ensures
        spec.object_id(a, n) == spec.object_id(b, n),
    decreases n,
{
    if n > 0 {
        lemma_object_id_prefix(spec, a, b, (n - 1) as nat);
    }
}

/// How the rows of two tables are linked.
#[derive(Clone)]
pub struct Link {
    pub src: TableName,
    pub dest: TableName,
    pub src_fk: ColName,
    pub dest_fk: ColName,
}

/// A condition on one column of a table.
pub struct Filter {
    pub table: TableName,
    pub col: ColName,
    pub val: SqlValue,
}

/// The last index at which `tables` holds `name`.
pub open spec fn table_index(tables: Seq<String>, name: Seq<char>) -> Option<int>
    decreases tables.len(),
{
    if tables.len() == 0 {
        None
    } else if tables.last()@ == name {
        Some(tables.len() - 1)
    } else {
        table_index(tables.drop_last(), name)
    }
}

/// The last index at which `links` holds a link from `src` to `dest`.
pub open spec fn link_index(links: Seq<Link>, src: Seq<char>, dest: Seq<char>) -> Option<int>
    decreases links.len(),
{
    if links.len() == 0 {
        None
    } else if links.last().src@ == src && links.last().dest@ == dest {
        Some(links.len() - 1)
    } else {
        link_index(links.drop_last(), src, dest)
    }
}

/// An index that [`table_index`] gives is one of `tables`.
pub proof fn lemma_table_index_bounds(tables: Seq<String>, name: Seq<char>)
    ensures
        table_index(tables, name) matches Some(i) ==> 0 <= i < tables.len() && tables[i]@ == name,
    decreases tables.len(),
{
    if tables.len() > 0 && tables.last()@ != name {
        lemma_table_index_bounds(tables.drop_last(), name);
    }
}

/// Both ends of every link are among the tables.
pub open spec fn links_known(tables: Seq<String>, links: Seq<Link>) -> bool {
    forall|i: int|
        0 <= i < links.len() ==> table_index(tables, (#[trigger] links[i]).src@) is Some
            && table_index(tables, links[i].dest@) is Some
}

/// The graph of the links: an edge of weight one from the index of each
/// link's source to the index of its destination.
pub open spec fn edges_of(tables: Seq<String>, links: Seq<Link>) -> Seq<(usize, usize, usize)> {
    Seq::new(
        links.len(),
        |i: int|
            (
                table_index(tables, links[i].src@).unwrap() as usize,
                table_index(tables, links[i].dest@).unwrap() as usize,
                1usize,
            ),
    )
}

/// The joins gathered so far, and the tables that are joined already.
pub struct JoinState {
    pub joins: Seq<Seq<char>>,
    pub joined: Seq<Seq<char>>,
}

/// The join that a link gives.
pub open spec fn join_text(link: Link) -> Seq<char> {
    link.src@ + " ON "@ + link.src@ + "."@ + link.src_fk@ + " = "@ + link.dest@ + "."@
        + link.dest_fk@
}

/// The condition that a filter gives.
pub open spec fn filter_text(filter: Filter) -> Seq<char> {
    filter.table@ + "."@ + filter.col@ + " = "@ + sql_literal(filter.val@)
}

/// The conditions that filters give, in order.
pub open spec fn conditions_of(filters: Seq<Filter>) -> Seq<Seq<char>> {
    Seq::new(filters.len(), |i: int| filter_text(filters[i]))
}

/// The joins along the path `nodes`, which starts at the target, from its
/// `i`-th node on: each step from a node to the next joins the next node's
/// table by the link from it, unless that table is joined already. `None`
/// where a node is no table or a step has no link.
pub open spec fn joins_along(
    tables: Seq<String>,
    links: Seq<Link>,
    nodes: Seq<usize>,
    i: int,
    state: JoinState,
) -> Option<JoinState>
    decreases nodes.len() - i,
{
    if i < 0 || i + 1 >= nodes.len() {
        Some(state)
    } else if nodes[i] >= tables.len() || nodes[i + 1] >= tables.len() {
        None
    } else {
        let dest = tables[nodes[i] as int]@;
        let src = tables[nodes[i + 1] as int]@;
        match link_index(links, src, dest) {
            None => None,
            Some(l) => joins_along(
                tables,
                links,
                nodes,
                i + 1,
                if state.joined.contains(src) {
                    state
                } else {
                    JoinState {
                        joins: state.joins.push(join_text(links[l])),
                        joined: state.joined.push(src),
                    }
                },
            ),
        }
    }
}

/// The joins after a filter on `table`: none are added where that is the
/// target or joined already; otherwise those along the path from it to the
/// target. `None` where a table is unknown or no node of the graph, or where
/// there is no path.
pub open spec fn joins_for_filter(
    tables: Seq<String>,
    links: Seq<Link>,
    target: Seq<char>,
    table: Seq<char>,
    state: JoinState,
) -> Option<JoinState> {
    if table == target || state.joined.contains(table) {
        Some(state)
    } else {
        let edges = edges_of(tables, links);
        match (table_index(tables, table), table_index(tables, target)) {
            (Some(s), Some(d)) => if s >= node_count(edges) || d >= node_count(edges) {
                None
            } else {
                match shortest_path(edges, s as usize, d as usize) {
                    Some(path) => joins_along(tables, links, path.reverse(), 0, state),
                    None => None,
                }
            },
            _ => None,
        }
    }
}

/// The joins after the first `n` filters. `None` where a filter's value
/// cannot be written.
pub open spec fn joins_for_filters(
    tables: Seq<String>,
    links: Seq<Link>,
    target: Seq<char>,
    filters: Seq<Filter>,
    n: nat,
) -> Option<JoinState>
    decreases n,
{
    if n == 0 {
        Some(JoinState { joins: Seq::empty(), joined: seq![target] })
    } else {
        match joins_for_filters(tables, links, target, filters, (n - 1) as nat) {
            None => None,
            Some(state) => if is_renderable(filters[n - 1].val@) {
                joins_for_filter(tables, links, target, filters[n - 1].table@, state)
            } else {
                None
            },
        }
    }
}

/// The query for all of `target` under the given joins and conditions.
pub open spec fn select_text(target: Seq<char>, joins: Seq<Seq<char>>, conditions: Seq<Seq<char>>)
    -> Seq<char> {
    "SELECT * FROM "@ + target + (if joins.len() == 0 {
        " "@
    } else {
        " JOIN "@
    }) + joined(joins, " JOIN "@) + (if conditions.len() == 0 {
        " "@
    } else {
        " WHERE "@
    }) + joined(conditions, " AND "@)
}

/// The query for the rows of `target` that `filters` hold of, which may be
/// conditions on other tables: these are joined along the links that lead
/// from them to the target.
pub open spec fn selection(
    tables: Seq<String>,
    links: Seq<Link>,
    target: Seq<char>,
    filters: Seq<Filter>,
) -> Option<Seq<char>> {
    match joins_for_filters(tables, links, target, filters, filters.len()) {
        None => None,
        Some(state) => Some(
            select_text(target, state.joins, conditions_of(filters)),
        ),
    }
}

/// Once the joins cannot be made, further filters do not mend it.
pub proof fn lemma_joins_stay_none(
    tables: Seq<String>,
    links: Seq<Link>,
    target: Seq<char>,
    filters: Seq<Filter>,
    n: nat,
    m: nat,
)
    requires
        n <= m,
        joins_for_filters(tables, links, target, filters, n) is None,
    ensures
        joins_for_filters(tables, links, target, filters, m) is None,
    decreases m,
{
    if n < m {
        lemma_joins_stay_none(tables, links, target, filters, n, (m - 1) as nat);
    }
}

/// Whether `texts` holds `text`.
fn has_text(texts: &Vec<String>, text: &String) -> (r: bool)
    ensures
        r == texts_of(texts@).contains(text@),
{
    let mut i: usize = 0;
    while i < texts.len()
        invariant
            0 <= i <= texts@.len(),
            forall|k: int| 0 <= k < i ==> texts_of(texts@)[k] != text@,
        decreases texts@.len() - i,
    {
        if texts[i].eq(text) {
            assert(texts_of(texts@)[i as int] == text@);
            return true;
        }
        i = i + 1;
    }
    false
}

/// The tables, their links and how to make users.
pub struct Spec {
    pub user_spec: ObjectSpec,
    pub tables: Vec<TableName>,
    pub link2fks: Vec<Link>,
    // to calculate paths between tables
    fast_graph: PathGraph,
}

impl Spec {
    /// The names of the tables, in order.
    pub closed spec fn table_names(&self) -> Seq<String> {
        self.tables@
    }

    /// The links between the tables, in order.
    pub closed spec fn links(&self) -> Seq<Link> {
        self.link2fks@
    }

    /// Every link joins known tables, and the graph is that of the links.
    pub closed spec fn wf(&self) -> bool {
        &&& links_known(self.tables@, self.link2fks@)
        &&& self.fast_graph.edges() == edges_of(self.tables@, self.link2fks@)
    }

    /// How to make users.
    pub closed spec fn users(&self) -> ObjectSpec {
        self.user_spec
    }

    /// The tables, their links and how to make users, with the graph of the
    /// links prepared; `None` where a link names a table that is not among
    /// the tables.
    pub fn new(tables: &Vec<TableName>, links: &Vec<Link>, user_spec: ObjectSpec) -> (r: Option<
        Spec,
    >)
        ensures
            (r is Some) == links_known(tables@, links@),
            r is Some ==> r.unwrap().wf() && r.unwrap().table_names() == tables@
                && r.unwrap().links() == links@ && r.unwrap().users() == user_spec,
    {
        let mut edges: Vec<(usize, usize, usize)> = Vec::new();
        let mut i: usize = 0;
        while i < links.len()
            invariant
                0 <= i <= links@.len(),
                edges@.len() == i,
                forall|k: int|
                    0 <= k < i ==> table_index(tables@, (#[trigger] links@[k]).src@) is Some
                        && table_index(tables@, links@[k].dest@) is Some,
                forall|k: int|
                    0 <= k < i ==> #[trigger] edges@[k] == (
                        table_index(tables@, links@[k].src@).unwrap() as usize,
                        table_index(tables@, links@[k].dest@).unwrap() as usize,
                        1usize,
                    ),
            decreases links@.len() - i,
        {
            let link = &links[i];
            let srcix = match find_in(tables, &link.src) {
                Some(srcix) => srcix,
                None => { return None; },
            };
            let destix = match find_in(tables, &link.dest) {
                Some(destix) => destix,
                None => { return None; },
            };
            edges.push((srcix, destix, 1));
            i = i + 1;
        }
        let table_count = tables.len();
        proof {
            assert(edges@ =~= edges_of(tables@, links@));
            assert(tables@.len() == table_count);
            assert forall|k: int| 0 <= k < edges@.len() implies (#[trigger] edges@[k]).0
                < usize::MAX && edges@[k].1 < usize::MAX && edges@[k].2 == 1 by {
                lemma_table_index_bounds(tables@, links@[k].src@);
                lemma_table_index_bounds(tables@, links@[k].dest@);
            }
        }
        let fast_graph = PathGraph::prepare(edges);
        Some(
            Spec {
                user_spec: user_spec,
                tables: copy_strings(tables),
                link2fks: copy_links(links),
                fast_graph: fast_graph,
            },
        )
    }

    /// Makes a new user: the statements that insert a row into each of the
    /// user's tables, in order, and the user's identifier.
    pub fn create_user(&self) -> (r: (Vec<String>, String))
        requires
            self.users().wf(),
        ensures
            exists|rows: Seq<Seq<SqlValueView>>| #[trigger]
                self.users().is_rows(rows) && r.0@.len() == rows.len() && r.1@
                    == self.users().object_id(rows, rows.len()) && forall|t: int|
                    0 <= t < rows.len() ==> (#[trigger] r.0@[t])@ == self.users().statement(
                        t,
                        rows[t],
                    ),
    {
        self.user_spec.insert_rows()
    }

    /// The query for the rows of `target` that `filters` hold of. A filter
    /// may be on another table, which is then joined along the links that
    /// lead from it to the target. `None` where a filter's value cannot be
    /// written, where a table is unknown or has no link at all, or where no
    /// links lead from a filter's table to the target.
    pub fn select_with_filters(&self, target: &TableName, filters: &Vec<Filter>) -> (r: Option<
        String,
    >)
        requires
            self.wf(),
        ensures
            match selection(self.table_names(), self.links(), target@, filters@) {
                Some(query) => r is Some && r.unwrap()@ == query,
                None => r is None,
            },
    {
        let ghost tables = self.tables@;
        let ghost links = self.link2fks@;
        let ghost edges = edges_of(tables, links);
        let mut joinstr: Vec<String> = Vec::new();
        let mut filterstr: Vec<String> = Vec::new();
        let mut joined: Vec<String> = Vec::new();
        joined.push(target.clone());
        let nodes_in_graph = self.fast_graph.node_count();
        let mut k: usize = 0;
        proof {
            assert(texts_of(joined@) =~= seq![target@]);
            assert(texts_of(joinstr@) =~= Seq::<Seq<char>>::empty());
            assert(texts_of(filterstr@) =~= conditions_of(filters@.take(0)));
        }
        while k < filters.len()
            invariant
                0 <= k <= filters@.len(),
                self.wf(),
                tables == self.tables@,
                links == self.link2fks@,
                edges == edges_of(tables, links),
                nodes_in_graph == node_count(edges),
                joins_for_filters(tables, links, target@, filters@, k as nat) == Some(
                    JoinState { joins: texts_of(joinstr@), joined: texts_of(joined@) },
                ),
                texts_of(filterstr@) == conditions_of(filters@.take(k as int)),
            decreases filters@.len() - k,
        {
            let f = &filters[k];
            let ghost state = JoinState { joins: texts_of(joinstr@), joined: texts_of(joined@) };
            let literal = match f.val.as_sql() {
                Some(literal) => literal,
                None => {
                    proof {
                        lemma_joins_stay_none(
                            tables,
                            links,
                            target@,
                            filters@,
                            (k + 1) as nat,
                            filters@.len(),
                        );
                    }
                    return None;
                },
            };
            let mut condition = f.table.clone();
            push_str(&mut condition, ".");
            push_str(&mut condition, f.col.as_str());
            push_str(&mut condition, " = ");
            push_str(&mut condition, literal.as_str());
            proof {
                let shown = texts_of(filterstr@);
                assert(condition@ == filter_text(*f));
                assert(filters@.take(k + 1) =~= filters@.take(k as int).push(*f));
                assert(texts_of(filterstr@.push(condition)) =~= shown.push(condition@));
                assert(conditions_of(filters@.take(k + 1)) =~= conditions_of(
                    filters@.take(k as int),
                ).push(filter_text(*f)));
            }
            filterstr.push(condition);
            // a table that is joined already needs no path
            if !f.table.eq(target) && !has_text(&joined, &f.table) {
                let srcix = match find_in(&self.tables, &f.table) {
                    Some(srcix) => srcix,
                    None => {
                        proof {
                            lemma_joins_stay_none(
                                tables,
                                links,
                                target@,
                                filters@,
                                (k + 1) as nat,
                                filters@.len(),
                            );
                        }
                        return None;
                    },
                };
                let destix = match find_in(&self.tables, target) {
                    Some(destix) => destix,
                    None => {
                        proof {
                            lemma_joins_stay_none(
                                tables,
                                links,
                                target@,
                                filters@,
                                (k + 1) as nat,
                                filters@.len(),
                            );
                        }
                        return None;
                    },
                };
                proof {
                    assert(table_index(tables, f.table@) == Some(srcix as int));
                    assert(table_index(tables, target@) == Some(destix as int));
                    assert(self.fast_graph.edges() == edges);
                }
                if srcix >= nodes_in_graph || destix >= nodes_in_graph {
                    proof {
                        lemma_joins_stay_none(
                            tables,
                            links,
                            target@,
                            filters@,
                            (k + 1) as nat,
                            filters@.len(),
                        );
                    }
                    return None;
                }
                let path = match self.fast_graph.find_path(srcix, destix) {
                    Some(path) => path,
                    None => {
                        proof {
                            lemma_joins_stay_none(
                                tables,
                                links,
                                target@,
                                filters@,
                                (k + 1) as nat,
                                filters@.len(),
                            );
                        }
                        return None;
                    },
                };
                proof {
                    assert(shortest_path(edges, srcix, destix) == Some(path@));
                }
                // first node is the target, last node is the filter's table
                let ghost nodes = path@.reverse();
                let ghost goal = joins_along(tables, links, nodes, 0, state);
                proof {
                    assert(joins_for_filter(tables, links, target@, f.table@, state) == goal);
                }
                let len = path.len();
                let mut i: usize = 0;
                while i < len && i + 1 < len
                    invariant
                        0 <= i,
                        len == path@.len(),
                        nodes == path@.reverse(),
                        0 <= k < filters@.len(),
                        self.wf(),
                        tables == self.tables@,
                        links == self.link2fks@,
                        edges == edges_of(tables, links),
                        nodes_in_graph == node_count(edges),
                        texts_of(filterstr@) == conditions_of(filters@.take(k + 1)),
                        joins_along(
                            tables,
                            links,
                            nodes,
                            i as int,
                            JoinState { joins: texts_of(joinstr@), joined: texts_of(joined@) },
                        ) == goal,
                        joins_for_filters(tables, links, target@, filters@, (k + 1) as nat)
                            == goal,
                    decreases len - i,
                {
                    let n = path[len - 1 - i];
                    let next = path[len - 2 - i];
                    proof {
                        assert(nodes[i as int] == n);
                        assert(nodes[i + 1] == next);
                    }
                    if n >= self.tables.len() || next >= self.tables.len() {
                        proof {
                            lemma_joins_stay_none(
                                tables,
                                links,
                                target@,
                                filters@,
                                (k + 1) as nat,
                                filters@.len(),
                            );
                        }
                        return None;
                    }
                    let dest = &self.tables[n];
                    let src = &self.tables[next];
                    let link = match self.find_link(src, dest) {
                        Some(l) => &self.link2fks[l],
                        None => {
                            proof {
                                lemma_joins_stay_none(
                                    tables,
                                    links,
                                    target@,
                                    filters@,
                                    (k + 1) as nat,
                                    filters@.len(),
                                );
                            }
                            return None;
                        },
                    };
                    let ghost current = JoinState {
                        joins: texts_of(joinstr@),
                        joined: texts_of(joined@),
                    };
                    proof {
                        assert(tables[nodes[i as int] as int]@ == dest@);
                        assert(tables[nodes[i + 1] as int]@ == src@);
                        assert(link_index(links, src@, dest@) is Some);
                        assert(links[link_index(links, src@, dest@).unwrap()] == *link);
                    }
                    if !has_text(&joined, src) {
                        let mut join_clause = link.src.clone();
                        push_str(&mut join_clause, " ON ");
                        push_str(&mut join_clause, link.src.as_str());
                        push_str(&mut join_clause, ".");
                        push_str(&mut join_clause, link.src_fk.as_str());
                        push_str(&mut join_clause, " = ");
                        push_str(&mut join_clause, link.dest.as_str());
                        push_str(&mut join_clause, ".");
                        push_str(&mut join_clause, link.dest_fk.as_str());
                        proof {
                            assert(join_clause@ == join_text(*link));
                            assert(texts_of(joinstr@.push(join_clause)) =~= texts_of(
                                joinstr@,
                            ).push(join_clause@));
                            assert(texts_of(joined@.push(*src)) =~= texts_of(joined@).push(src@));
                        }
                        joinstr.push(join_clause);
                        joined.push(src.clone());
                    }
                    proof {
                        let after = JoinState {
                            joins: texts_of(joinstr@),
                            joined: texts_of(joined@),
                        };
                        assert(joins_along(tables, links, nodes, i as int, current) == joins_along(
                            tables,
                            links,
                            nodes,
                            i + 1,
                            after,
                        ));
                    }
                    i = i + 1;
                }
            }
            k = k + 1;
        }
        proof {
            assert(filters@.take(filters@.len() as int) =~= filters@);
        }
        let mut q = "SELECT * FROM ".to_owned();
        push_str(&mut q, target.as_str());
        if joinstr.is_empty() {
            push_str(&mut q, " ");
        } else {
            push_str(&mut q, " JOIN ");
        }
        push_str(&mut q, join(&joinstr, " JOIN ").as_str());
        if filterstr.is_empty() {
            push_str(&mut q, " ");
        } else {
            push_str(&mut q, " WHERE ");
        }
        push_str(&mut q, join(&filterstr, " AND ").as_str());
        Some(q)
    }

    /// The index of the table `name`: the last one where it occurs twice.
    pub fn find_table(&self, name: &String) -> (r: Option<usize>)
        ensures
            match table_index(self.table_names(), name@) {
                Some(i) => r is Some && r.unwrap() == i && 0 <= i < self.table_names().len(),
                None => r is None,
            },
    {
        find_in(&self.tables, name)
    }

    /// The index of the link from `src` to `dest`: the last one where there
    /// are several.
    pub fn find_link(&self, src: &String, dest: &String) -> (r: Option<usize>)
        ensures
            match link_index(self.links(), src@, dest@) {
                Some(i) => r is Some && r.unwrap() == i && 0 <= i < self.links().len(),
                None => r is None,
            },
    {
        let mut i: usize = self.link2fks.len();
        proof {
            assert(self.link2fks@.take(i as int) =~= self.link2fks@);
        }
        while i > 0
            invariant
                0 <= i <= self.link2fks@.len(),
                link_index(self.link2fks@, src@, dest@) == link_index(
                    self.link2fks@.take(i as int),
                    src@,
                    dest@,
                ),
            decreases i,
        {
            i = i - 1;
            let link = &self.link2fks[i];
            proof {
                assert(self.link2fks@.take(i + 1).last() == self.link2fks@[i as int]);
                assert(self.link2fks@.take(i + 1).drop_last() =~= self.link2fks@.take(i as int));
            }
            if link.src.eq(src) && link.dest.eq(dest) {
                return Some(i);
            }
        }
        None
    }
}

/// The last index at which `tables` holds `name`.
fn find_in(tables: &Vec<String>, name: &String) -> (r: Option<usize>)
    ensures
        match table_index(tables@, name@) {
            Some(i) => r is Some && r.unwrap() == i && 0 <= i < tables@.len(),
            None => r is None,
        },
{
    let mut i: usize = tables.len();
    proof {
        assert(tables@.take(i as int) =~= tables@);
    }
    while i > 0
        invariant
            0 <= i <= tables@.len(),
            table_index(tables@, name@) == table_index(tables@.take(i as int), name@),
        decreases i,
    {
        i = i - 1;
        proof {
            assert(tables@.take(i + 1).last() == tables@[i as int]);
            assert(tables@.take(i + 1).drop_last() =~= tables@.take(i as int));
        }
        if tables[i].eq(name) {
            return Some(i);
        }
    }
    None
}

/// A copy of a list of strings.
fn copy_strings(strings: &Vec<String>) -> (r: Vec<String>)
    ensures
        r@ == strings@,
{
    let mut out: Vec<String> = Vec::new();
    let mut i: usize = 0;
    while i < strings.len()
        invariant
            0 <= i <= strings@.len(),
            out@ == strings@.take(i as int),
        decreases strings@.len() - i,
    {
        out.push(strings[i].clone());
        proof {
            assert(strings@.take(i + 1) =~= strings@.take(i as int).push(strings@[i as int]));
        }
        i = i + 1;
    }
    proof {
        assert(strings@.take(strings@.len() as int) =~= strings@);
    }
    out
}

/// A copy of a list of links.
fn copy_links(links: &Vec<Link>) -> (r: Vec<Link>)
    ensures
        r@ == links@,
{
    let mut out: Vec<Link> = Vec::new();
    let mut i: usize = 0;
    while i < links.len()
        invariant
            0 <= i <= links@.len(),
            out@ == links@.take(i as int),
        decreases links@.len() - i,
    {
        let link = &links[i];
        out.push(
            Link {
                src: link.src.clone(),
                dest: link.dest.clone(),
                src_fk: link.src_fk.clone(),
                dest_fk: link.dest_fk.clone(),
            },
        );
        proof {
            assert(links@.take(i + 1) =~= links@.take(i as int).push(links@[i as int]));
        }
        i = i + 1;
    }
    proof {
        assert(links@.take(links@.len() as int) =~= links@);
    }
    out
}

} // verus!
