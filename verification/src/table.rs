//! [`TableView`]: a columnar table over rows of a caller's type: the ordered
//! rows, the column layout, a cursor, and the active sort.
//!
//! The caller supplies one impl of [`TableRow`] (an identity and a
//! field-to-cell lookup), the [`Column`] list, and the initial [`SortKey`].
//! The sort names a column *header*; it is resolved to the column's field,
//! and a sort naming no declared header is refused rather than silently
//! sorting by nothing. Rows are ordered by their projected text, stably.
//!
//! What a row's methods answer is the caller's code, not this library's, so
//! the contracts here say what holds whatever they answer; the ordering and
//! the lookups that follow the answers are verified functions of their own
//! ([`sort_permutation`], [`sorted_by_keys`], [`first_with_identity`]).
use vstd::prelude::*;
use crate::selectable::Selectable;
use crate::sorting::{is_permutation, sort_permutation, sorted_by};
use crate::strings::{chars_of, str_eq, string_of_parts};
use crate::diff_text::chars_eq;

verus! {

/// The reserved column field that projects a row's identity rather than one
/// of its cells.
pub const IDENTITY_FIELD: &'static str = "name";

/// A row a [`TableView`] can display: something with a stable identity and
/// named cells. `cell` answers `None` for a field the row does not carry.
pub trait TableRow {
    /// This row's stable identity.
    fn identity(&self) -> &str;

    /// This row's value for `field`, or `None` if the row does not carry it.
    fn cell(&self, field: &str) -> Option<&str>;
}

/// One column: a header to draw and the [`TableRow`] field it projects.
#[derive(Debug, Clone, PartialEq, Eq)]
pub struct Column {
    /// The header text drawn at the top of the column.
    pub header: String,
    /// The cell key this column reads; [`IDENTITY_FIELD`] reads the identity.
    pub field: String,
}

impl Column {
    pub fn new(header: &str, field: &str) -> (r: Self)
        ensures
            r.header@ == header@,
            r.field@ == field@,
    {
        Column { header: header.to_owned(), field: field.to_owned() }
    }

    /// Whether this column projects the row's identity rather than a cell.
    pub fn is_identity(&self) -> (r: bool)
        ensures
            r == (self.field@ == IDENTITY_FIELD@),
    {
        str_eq(self.field.as_str(), IDENTITY_FIELD)
    }
}

/// Sort direction.
#[derive(Debug, Clone, Copy, PartialEq, Eq, Structural)]
pub enum SortOrder {
    /// Ascending on the projected text.
    Asc,
    /// Descending.
    Desc,
}

impl SortOrder {
    /// The other direction.
    pub fn toggled(self) -> (r: Self)
        ensures
            r == (match self {
                SortOrder::Asc => SortOrder::Desc,
                SortOrder::Desc => SortOrder::Asc,
            }),
    {
        match self {
            SortOrder::Asc => SortOrder::Desc,
            SortOrder::Desc => SortOrder::Asc,
        }
    }
}

/// The active sort: a column header plus a direction.
#[derive(Debug, Clone, PartialEq, Eq)]
pub struct SortKey {
    /// The header of the column to sort by.
    pub column: String,
    /// The direction.
    pub order: SortOrder,
}

impl SortKey {
    pub fn new(column: &str, order: SortOrder) -> (r: Self)
        ensures
            r.column@ == column@,
            r.order == order,
    {
        SortKey { column: column.to_owned(), order }
    }
}

/// The one way a [`TableView`] refuses to exist or to change its sort.
#[derive(Debug, Clone, PartialEq, Eq)]
pub enum TableError {
    /// A sort key named a column header the table does not declare.
    UnknownSortColumn(String),
}

impl TableError {
    /// The error's message, naming the offending header.
    pub fn message(&self) -> (r: String)
        ensures
            ({
                let TableError::UnknownSortColumn(h) = *self;
                r@ == "sort column `"@ + h@ + "` is not one of this table's declared columns"@
            }),
    {
        match self {
            TableError::UnknownSortColumn(h) => {
                let a = chars_of("sort column `");
                let b = chars_of(h.as_str());
                let c = chars_of("` is not one of this table's declared columns");
                let ab = string_of_parts(a.as_slice(), b.as_slice());
                let ab_chars = chars_of(ab.as_str());
                string_of_parts(ab_chars.as_slice(), c.as_slice())
            },
        }
    }
}

/// Some declared column has header `header`.
pub open spec fn declared(columns: Seq<Column>, header: Seq<char>) -> bool {
    exists|i: int| 0 <= i < columns.len() && (#[trigger] columns[i]).header@ == header
}

/// The first column at or after `i` with header `header`, or `columns.len()`.
pub open spec fn header_pos(columns: Seq<Column>, header: Seq<char>, i: int) -> int
    decreases columns.len() - i,
{
    if i < 0 || i >= columns.len() {
        columns.len() as int
    } else if columns[i].header@ == header {
        i
    } else {
        header_pos(columns, header, i + 1)
    }
}

/// The field a sort header resolves to: that of the first column with that
/// header, or the header itself when there is none.
pub open spec fn sort_field_of(columns: Seq<Column>, header: Seq<char>) -> Seq<char> {
    let i = header_pos(columns, header, 0);
    if i < columns.len() {
        columns[i].field@
    } else {
        header
    }
}

/// `rows` in the order `p` lists them.
pub open spec fn permuted<R>(rows: Seq<R>, p: Seq<usize>) -> Seq<R> {
    Seq::new(p.len(), |i: int| rows[p[i] as int])
}

/// `out` is `input` reordered stably by `keys`, one text per row.
pub open spec fn sorted_as<R>(input: Seq<R>, keys: Seq<Seq<char>>, desc: bool, out: Seq<R>) -> bool {
    exists|p: Seq<usize>|
        is_permutation(p, input.len() as int) && sorted_by(keys, desc, p) && out == permuted(input, p)
}

/// `keys` holds, for each row, a text that row projects for `field`.
pub open spec fn projected_keys<R: TableRow>(rows: Seq<R>, field: Seq<char>, keys: Seq<Seq<char>>) -> bool {
    &&& keys.len() == rows.len()
    &&& forall|i: int| 0 <= i < rows.len() ==> #[trigger] projects_to(&rows[i], field, keys[i])
}

/// `row` projects the text `key` for `field` (see [`projected`]).
pub open spec fn projects_to<'a, R: TableRow>(row: &'a R, field: Seq<char>, key: Seq<char>) -> bool {
    exists|r: &'a str| r@ == key && #[trigger] projected(row, field, r)
}

/// `row`'s `identity` can answer `id`.
pub open spec fn identity_is<'a, R: TableRow>(row: &'a R, id: Seq<char>) -> bool {
    exists|r: &'a str| r@ == id && #[trigger] call_ensures(R::identity, (row,), r)
}

/// `i` held within `len` rows: itself when it is a row, else the last row
/// (0 when there are none).
pub open spec fn clamped(i: int, len: int) -> int {
    if i < len {
        i
    } else if len == 0 {
        0
    } else {
        len - 1
    }
}

/// After the rows `old_rows` (cursor on `sel`) were reordered into
/// `new_rows`, the cursor `nsel` is on the first new row that answered the
/// identity the old cursor row answered, and otherwise at `fallback`, held
/// within the rows. `ids` are the identities the new rows answered.
pub open spec fn holds_cursor<R: TableRow>(
    old_rows: Seq<R>,
    sel: int,
    new_rows: Seq<R>,
    nsel: int,
    fallback: int,
) -> bool {
    &&& old_rows.len() == 0 ==> nsel == clamped(fallback, new_rows.len() as int)
    &&& old_rows.len() > 0 ==> exists|id: Seq<char>, ids: Seq<Seq<char>>|
        #![trigger identity_is(&old_rows[sel], id), identity_pos(ids, id, 0)]
    {
        &&& identity_is(&old_rows[sel], id)
        &&& ids.len() == new_rows.len()
        &&& forall|j: int| 0 <= j < new_rows.len() ==> #[trigger] identity_is(&new_rows[j], ids[j])
        &&& nsel == (if identity_pos(ids, id, 0) < ids.len() {
            identity_pos(ids, id, 0)
        } else {
            clamped(fallback, new_rows.len() as int)
        })
    }
}

/// `out` is `input` reordered stably by the texts the rows project for
/// `field`.
pub open spec fn is_sorting<R: TableRow>(input: Seq<R>, out: Seq<R>, field: Seq<char>, desc: bool) -> bool {
    exists|keys: Seq<Seq<char>>| projected_keys(input, field, keys) && #[trigger] sorted_as(input, keys, desc, out)
}

/// `row`'s `cell` can answer for `field` a value (`some`) or none.
pub open spec fn cell_can_be<'a, R: TableRow>(row: &'a R, field: Seq<char>, some: bool) -> bool {
    exists|f: &str, o: Option<&'a str>| f@ == field && #[trigger] call_ensures(R::cell, (row, f), o) && o is Some == some
}

/// `carried` flags, column by column, whether the rows carry its field: set
/// when some row's `cell` answered a value for it, clear when every row's
/// `cell` answered none.
pub open spec fn carried_by<R: TableRow>(rows: Seq<R>, columns: Seq<Column>, carried: Seq<bool>) -> bool {
    &&& carried.len() == columns.len()
    &&& forall|i: int| 0 <= i < columns.len() ==> (#[trigger] carried[i] ==> exists|k: int|
        0 <= k < rows.len() && cell_can_be(&rows[k], columns[i].field@, true))
    &&& forall|i: int| 0 <= i < columns.len() ==> (!#[trigger] carried[i] ==> forall|k: int|
        0 <= k < rows.len() ==> cell_can_be(&rows[k], columns[i].field@, false))
}

/// The non-identity fields of `columns` whose `carried` flag is false, in
/// column order.
pub open spec fn unresolved_model(columns: Seq<Column>, carried: Seq<bool>) -> Seq<Seq<char>>
    decreases columns.len(),
{
    if columns.len() == 0 {
        Seq::empty()
    } else {
        let rest = unresolved_model(columns.drop_last(), carried.drop_last());
        if columns.last().field@ != IDENTITY_FIELD@ && !carried.last() {
            rest.push(columns.last().field@)
        } else {
            rest
        }
    }
}

/// The first index at or after `i` whose identity is `id`, or `ids.len()`.
pub open spec fn identity_pos(ids: Seq<Seq<char>>, id: Seq<char>, i: int) -> int
    decreases ids.len() - i,
{
    if i < 0 || i >= ids.len() {
        ids.len() as int
    } else if ids[i] == id {
        i
    } else {
        identity_pos(ids, id, i + 1)
    }
}

proof fn lemma_holds_cursor<R: TableRow>(
    old_rows: Seq<R>,
    sel: int,
    new_rows: Seq<R>,
    nsel: int,
    fallback: int,
    id: Option<Vec<char>>,
)
    requires
        id is Some == (old_rows.len() > 0),
        id matches Some(v) ==> identity_is(&old_rows[sel], v@),
        id is None ==> nsel == clamped(fallback, new_rows.len() as int),
        id matches Some(v) ==> exists|ids: Seq<Seq<char>>| {
            &&& ids.len() == new_rows.len()
            &&& forall|j: int| 0 <= j < new_rows.len() ==> #[trigger] identity_is(&new_rows[j], ids[j])
            &&& nsel == (if identity_pos(ids, v@, 0) < ids.len() {
                identity_pos(ids, v@, 0)
            } else {
                clamped(fallback, new_rows.len() as int)
            })
        },
    ensures
        holds_cursor(old_rows, sel, new_rows, nsel, fallback),
{
    match id {
        Some(v) => {
            let ids = choose|ids: Seq<Seq<char>>| {
                &&& ids.len() == new_rows.len()
                &&& forall|j: int| 0 <= j < new_rows.len() ==> #[trigger] identity_is(&new_rows[j], ids[j])
                &&& nsel == (if identity_pos(ids, v@, 0) < ids.len() {
                    identity_pos(ids, v@, 0)
                } else {
                    clamped(fallback, new_rows.len() as int)
                })
            };
            assert(identity_is(&old_rows[sel], v@));
        },
        None => {},
    }
}

/// The index of the first of `ids` equal to `id`, if any.
pub fn first_with_identity(ids: &Vec<Vec<char>>, id: &[char]) -> (r: Option<usize>)
    ensures
        ({
            let ids_v = ids@.map_values(|v: Vec<char>| v@);
            let i = identity_pos(ids_v, id@, 0);
            &&& r is Some == (i < ids@.len())
            &&& r matches Some(k) ==> k == i
        }),
{
    let ghost ids_v = ids@.map_values(|v: Vec<char>| v@);
    let mut i: usize = 0;
    while i < ids.len()
        invariant
            ids_v == ids@.map_values(|v: Vec<char>| v@),
            i <= ids@.len(),
            identity_pos(ids_v, id@, 0) == identity_pos(ids_v, id@, i as int),
        decreases ids@.len() - i,
    {
        assert(ids_v[i as int] == ids@[i as int]@);
        if chars_eq(ids[i].as_slice(), id) {
            return Some(i);
        }
        i += 1;
    }
    None
}

/// Moves the rows into the order `p` lists them.
fn reorder<R>(rows: Vec<R>, p: &Vec<usize>) -> (out: Vec<R>)
    requires
        is_permutation(p@, rows@.len() as int),
    ensures
        out@ == permuted(rows@, p@),
{
    let ghost orig = rows@;
    let n = rows.len();
    let mut rows = rows;
    let mut slots: Vec<Option<R>> = Vec::new();
    while rows.len() > 0
        invariant
            n == orig.len(),
            rows@.len() + slots@.len() == n,
            rows@ == orig.take(rows@.len() as int),
            forall|j: int| 0 <= j < slots@.len() ==> #[trigger] slots@[j] == Some(orig[n - 1 - j]),
        decreases rows@.len(),
    {
        let ghost before = rows@;
        let r = rows.pop().unwrap();
        slots.push(Some(r));
        assert(rows@ =~= orig.take(rows@.len() as int));
    }
    let mut out: Vec<R> = Vec::new();
    let mut i: usize = 0;
    while i < n
        invariant
            n == orig.len() == slots@.len() == p@.len(),
            is_permutation(p@, n as int),
            i <= n,
            out@ == permuted(orig, p@.take(i as int)),
            forall|j: int|
                0 <= j < n ==> ((#[trigger] slots@[j]) is None <==> exists|k: int|
                    0 <= k < i && n - 1 - p@[k] == j),
            forall|j: int| 0 <= j < n && slots@[j] is Some ==> #[trigger] slots@[j] == Some(orig[n - 1 - j]),
        decreases n - i,
    {
        let j = p[i];
        let idx = n - 1 - j;
        assert(slots@[idx as int] is Some) by {
            if slots@[idx as int] is None {
                let k = choose|k: int| 0 <= k < i && n - 1 - p@[k] == idx;
                assert(p@[k] == p@[i as int]);
            }
        }
        let x = slots[idx].take();
        match x {
            Some(r) => {
                out.push(r);
            },
            None => {
                assert(false);
            },
        }
        proof {
            assert forall|jj: int|
                0 <= jj < n implies ((#[trigger] slots@[jj]) is None <==> exists|k: int|
                0 <= k < i + 1 && n - 1 - p@[k] == jj) by {
                if jj == idx {
                    assert(n - 1 - p@[i as int] == jj);
                }
            }
        }
        assert(out@ =~= permuted(orig, p@.take(i + 1)));
        i += 1;
    }
    assert(p@.take(n as int) =~= p@);
    out
}

/// `rows` reordered stably by `keys` (one text per row), descending when
/// `order` is `Desc`.
pub fn sorted_by_keys<R>(rows: Vec<R>, keys: &Vec<Vec<char>>, order: SortOrder) -> (out: Vec<R>)
    requires
        keys@.len() == rows@.len(),
    ensures
        sorted_as(rows@, keys@.map_values(|k: Vec<char>| k@), order == SortOrder::Desc, out@),
{
    let desc = match order {
        SortOrder::Asc => false,
        SortOrder::Desc => true,
    };
    let p = sort_permutation(keys, desc);
    let ghost input = rows@;
    let out = reorder(rows, &p);
    assert(is_permutation(p@, input.len() as int) && sorted_by(
        keys@.map_values(|k: Vec<char>| k@),
        desc,
        p@,
    ) && out@ == permuted(input, p@));
    out
}

/// `r` is what `row` projects for `field`: an answer its `identity` can give
/// for [`IDENTITY_FIELD`]; else the cell its `cell` can answer for `field`,
/// or `""` where `cell` can answer `None`.
pub open spec fn projected<'a, R: TableRow>(row: &'a R, field: Seq<char>, r: &'a str) -> bool {
    if field == IDENTITY_FIELD@ {
        call_ensures(R::identity, (row,), r)
    } else {
        exists|f: &str, o: Option<&'a str>|
            f@ == field && #[trigger] call_ensures(R::cell, (row, f), o) && match o {
                Some(v) => r == v,
                None => r@ == Seq::<char>::empty(),
            }
    }
}

/// The text one row projects for a field: its identity for
/// [`IDENTITY_FIELD`], else its cell, `""` when it has none.
fn project<'a, R: TableRow>(row: &'a R, field: &str) -> (r: &'a str)
    ensures
        projected(row, field@, r),
{
    if str_eq(field, IDENTITY_FIELD) {
        row.identity()
    } else {
        let o = row.cell(field);
        match o {
            Some(v) => {
                assert(projected(row, field@, v));
                v
            },
            None => {
                let e = "";
                proof { reveal_strlit(""); }
                assert(e@ == Seq::<char>::empty());
                assert(projected(row, field@, e));
                e
            },
        }
    }
}

/// The rows reordered by what they project for `field`.
fn sort_rows<R: TableRow>(rows: Vec<R>, field: &str, order: SortOrder) -> (out: Vec<R>)
    ensures
        is_sorting(rows@, out@, field@, order == SortOrder::Desc),
{
    let mut keys: Vec<Vec<char>> = Vec::new();
    let mut i: usize = 0;
    while i < rows.len()
        invariant
            i <= rows@.len(),
            keys@.len() == i,
            forall|j: int| 0 <= j < i ==> #[trigger] projects_to(&rows@[j], field@, keys@[j]@),
        decreases rows@.len() - i,
    {
        let t = project(&rows[i], field);
        let k = chars_of(t);
        assert(projects_to(&rows@[i as int], field@, k@));
        keys.push(k);
        i += 1;
    }
    let ghost input = rows@;
    let ghost kv = keys@.map_values(|k: Vec<char>| k@);
    assert(projected_keys(input, field@, kv)) by {
        assert forall|j: int| 0 <= j < input.len() implies #[trigger] projects_to(&input[j], field@, kv[j]) by {
            assert(kv[j] == keys@[j]@);
        }
    }
    let out = sorted_by_keys(rows, &keys, order);
    assert(projected_keys(input, field@, kv) && sorted_as(input, kv, order == SortOrder::Desc, out@));
    out
}

/// A columnar table over rows of `R`: the ordered rows, the columns, the
/// cursor, and the active sort.
#[derive(Debug, PartialEq, Eq)]
pub struct TableView<R> {
    columns: Vec<Column>,
    rows: Vec<R>,
    selected: usize,
    sort: SortKey,
    focused: bool,
}

impl<R> TableView<R> {
    /// The cursor is on a row (0 when there is none), and the sort names a
    /// declared column.
    #[verifier::type_invariant]
    spec fn inv(self) -> bool {
        &&& self.selected == 0 || self.selected < self.rows@.len()
        &&& declared(self.columns@, self.sort.column@)
    }

    pub closed spec fn columns_spec(&self) -> Seq<Column> {
        self.columns@
    }

    pub closed spec fn rows_spec(&self) -> Seq<R> {
        self.rows@
    }

    pub closed spec fn selected_spec(&self) -> int {
        self.selected as int
    }

    pub closed spec fn sort_spec(&self) -> SortKey {
        self.sort
    }

    pub closed spec fn focused_spec(&self) -> bool {
        self.focused
    }

    /// The cursor is on a row, or 0 when there are none.
    pub open spec fn selection_ok(&self) -> bool {
        self.selected_spec() == 0 || 0 <= self.selected_spec() < self.rows_spec().len()
    }
}

/// Whether some column has header `header`.
fn header_declared(columns: &Vec<Column>, header: &str) -> (r: bool)
    ensures
        r == declared(columns@, header@),
{
    let mut i: usize = 0;
    while i < columns.len()
        invariant
            i <= columns@.len(),
            forall|j: int| 0 <= j < i ==> columns@[j].header@ != header@,
        decreases columns@.len() - i,
    {
        if str_eq(columns[i].header.as_str(), header) {
            return true;
        }
        i += 1;
    }
    false
}

/// The field a sort header resolves to.
fn resolve_field(columns: &Vec<Column>, header: &str) -> (r: String)
    ensures
        r@ == sort_field_of(columns@, header@),
{
    let mut i: usize = 0;
    while i < columns.len()
        invariant
            i <= columns@.len(),
            header_pos(columns@, header@, 0) == header_pos(columns@, header@, i as int),
        decreases columns@.len() - i,
    {
        if str_eq(columns[i].header.as_str(), header) {
            return columns[i].field.clone();
        }
        i += 1;
    }
    header.to_owned()
}

impl<R: TableRow> TableView<R> {
    /// A table over `rows`, laid out by `columns`, sorted by `sort`; refused
    /// when `sort.column` is no declared column's header.
    pub fn new(columns: Vec<Column>, rows: Vec<R>, sort: SortKey) -> (r: Result<Self, TableError>)
        ensures
            r is Err == !declared(columns@, sort.column@),
            r matches Err(TableError::UnknownSortColumn(h)) ==> h@ == sort.column@,
            r matches Ok(t) ==> {
                &&& t.columns_spec() == columns@
                &&& t.sort_spec() == sort
                &&& t.selected_spec() == 0
                &&& !t.focused_spec()
                &&& is_sorting(rows@, t.rows_spec(), sort_field_of(columns@, sort.column@), sort.order == SortOrder::Desc)
            },
    {
        if !header_declared(&columns, sort.column.as_str()) {
            return Err(TableError::UnknownSortColumn(sort.column.as_str().to_owned()));
        }
        let field = resolve_field(&columns, sort.column.as_str());
        let rows = sort_rows(rows, field.as_str(), sort.order);
        Ok(TableView { columns, rows, selected: 0, sort, focused: false })
    }

    /// The non-identity column fields that no row carries (in column order):
    /// a declared column that will always render empty.
    pub fn unresolved_fields(&self) -> (r: Vec<&str>)
        ensures
            exists|carried: Seq<bool>|
                carried_by(self.rows_spec(), self.columns_spec(), carried) && r@.map_values(|s: &str| s@)
                    == #[trigger] unresolved_model(self.columns_spec(), carried),
    {
        let mut out: Vec<&str> = Vec::new();
        let ghost mut carried: Seq<bool> = Seq::empty();
        let mut i: usize = 0;
        while i < self.columns.len()
            invariant
                i <= self.columns@.len(),
                carried.len() == i,
                carried_by(self.rows@, self.columns@.take(i as int), carried),
                out@.map_values(|s: &str| s@) == unresolved_model(
                    self.columns@.take(i as int),
                    carried,
                ),
            decreases self.columns@.len() - i,
        {
            let c = &self.columns[i];
            let ident = c.is_identity();
            let mut any = false;
            let mut k: usize = 0;
            while k < self.rows.len() && !any
                invariant
                    k <= self.rows@.len(),
                    c == self.columns@[i as int],
                    any ==> exists|kk: int| 0 <= kk < k && cell_can_be(&self.rows@[kk], c.field@, true),
                    !any ==> forall|kk: int| 0 <= kk < k ==> cell_can_be(&self.rows@[kk], c.field@, false),
                decreases self.rows@.len() - k,
            {
                let o = self.rows[k].cell(c.field.as_str());
                assert(cell_can_be(&self.rows@[k as int], c.field@, o is Some));
                if o.is_some() {
                    any = true;
                }
                k += 1;
            }
            let ghost before = out@;
            assert(self.columns@.take(i + 1).drop_last() =~= self.columns@.take(i as int));
            assert(carried.push(any).drop_last() =~= carried);
            if !ident && !any {
                out.push(c.field.as_str());
                assert(out@.map_values(|s: &str| s@) =~= before.map_values(|s: &str| s@).push(
                    c.field@,
                ));
            }
            proof {
                let before_c = carried;
                carried = carried.push(any);
                let cols = self.columns@.take(i + 1);
                assert forall|j: int| 0 <= j < cols.len() implies (#[trigger] carried[j] ==> exists|kk: int|
                    0 <= kk < self.rows@.len() && cell_can_be(&self.rows@[kk], cols[j].field@, true)) by {
                    if j < i {
                        assert(cols[j] == self.columns@.take(i as int)[j]);
                        assert(carried[j] == before_c[j]);
                    }
                }
                assert forall|j: int| 0 <= j < cols.len() implies (!#[trigger] carried[j] ==> forall|kk: int|
                    0 <= kk < self.rows@.len() ==> cell_can_be(&self.rows@[kk], cols[j].field@, false)) by {
                    if j < i {
                        assert(cols[j] == self.columns@.take(i as int)[j]);
                        assert(carried[j] == before_c[j]);
                    }
                }
            }
            i += 1;
        }
        assert(self.columns@.take(self.columns@.len() as int) =~= self.columns@);
        assert(carried.len() == self.columns_spec().len() && out@.map_values(|s: &str| s@)
            == unresolved_model(self.columns_spec(), carried));
        out
    }

    /// The declared columns.
    pub fn columns(&self) -> (r: &[Column])
        ensures
            r@ == self.columns_spec(),
    {
        self.columns.as_slice()
    }

    /// The rows, in sorted display order.
    pub fn rows(&self) -> (r: &[R])
        ensures
            r@ == self.rows_spec(),
    {
        self.rows.as_slice()
    }

    pub fn len(&self) -> (r: usize)
        ensures
            r == self.rows_spec().len(),
    {
        self.rows.len()
    }

    pub fn is_empty(&self) -> (r: bool)
        ensures
            r == (self.rows_spec().len() == 0),
    {
        self.rows.len() == 0
    }

    /// The selected row index: in range, or 0 when empty.
    pub fn selected_index(&self) -> (r: usize)
        ensures
            r == self.selected_spec(),
            self.selection_ok(),
    {
        proof {
            use_type_invariant(self);
        }
        self.selected
    }

    /// The active sort key.
    pub fn sort(&self) -> (r: &SortKey)
        ensures
            *r == self.sort_spec(),
    {
        &self.sort
    }

    /// The selected row, or `None` when the table is empty.
    pub fn selected_row(&self) -> (r: Option<&R>)
        ensures
            r is Some == (self.rows_spec().len() > 0),
            r matches Some(x) ==> *x == self.rows_spec()[self.selected_spec()],
    {
        proof {
            use_type_invariant(self);
        }
        if self.selected < self.rows.len() {
            Some(&self.rows[self.selected])
        } else {
            None
        }
    }

    pub fn set_focused(&mut self, focused: bool)
        ensures
            final(self).focused_spec() == focused,
            final(self).rows_spec() == old(self).rows_spec(),
            final(self).columns_spec() == old(self).columns_spec(),
            final(self).selected_spec() == old(self).selected_spec(),
            final(self).sort_spec() == old(self).sort_spec(),
    {
        proof {
            use_type_invariant(&*self);
        }
        self.focused = focused;
    }

    pub fn is_focused(&self) -> (r: bool)
        ensures
            r == self.focused_spec(),
    {
        self.focused
    }

    /// The identity of the selected row, as characters, if there is one.
    fn selected_identity(&self) -> (r: Option<Vec<char>>)
        ensures
            r is Some == (self.rows_spec().len() > 0),
            r matches Some(v) ==> identity_is(&self.rows_spec()[self.selected_spec()], v@),
    {
        proof {
            use_type_invariant(self);
        }
        if self.selected < self.rows.len() {
            let t = self.rows[self.selected].identity();
            let v = chars_of(t);
            assert(identity_is(&self.rows@[self.selected as int], v@));
            Some(v)
        } else {
            None
        }
    }

    /// Where the cursor goes after a reorder: the first row with identity
    /// `id`, else `fallback`, clamped to the rows.
    fn refind(rows: &Vec<R>, id: Option<Vec<char>>, fallback: usize) -> (r: usize)
        ensures
            r == 0 || r < rows@.len(),
            id is None ==> r == clamped(fallback as int, rows@.len() as int),
            id matches Some(v) ==> exists|ids: Seq<Seq<char>>| {
                &&& ids.len() == rows@.len()
                &&& forall|j: int| 0 <= j < rows@.len() ==> #[trigger] identity_is(&rows@[j], ids[j])
                &&& r == (if identity_pos(ids, v@, 0) < ids.len() {
                    identity_pos(ids, v@, 0)
                } else {
                    clamped(fallback as int, rows@.len() as int)
                })
            },
    {
        let ghost mut found_ids: Seq<Seq<char>> = Seq::empty();
        let pos = match id {
            Some(id) => {
                let mut ids: Vec<Vec<char>> = Vec::new();
                let mut i: usize = 0;
                while i < rows.len()
                    invariant
                        i <= rows@.len(),
                        ids@.len() == i,
                        forall|j: int| 0 <= j < i ==> #[trigger] identity_is(&rows@[j], ids@[j]@),
                    decreases rows@.len() - i,
                {
                    let t = rows[i].identity();
                    let k = chars_of(t);
                    assert(identity_is(&rows@[i as int], k@));
                    ids.push(k);
                    i += 1;
                }
                proof {
                    found_ids = ids@.map_values(|v: Vec<char>| v@);
                    assert forall|j: int| 0 <= j < rows@.len() implies #[trigger] identity_is(&rows@[j], found_ids[j]) by {
                        assert(found_ids[j] == ids@[j]@);
                    }
                }
                match first_with_identity(&ids, id.as_slice()) {
                    Some(k) => k,
                    None => fallback,
                }
            },
            None => fallback,
        };
        if rows.len() == 0 {
            0
        } else if pos >= rows.len() {
            rows.len() - 1
        } else {
            pos
        }
    }

    /// Replace the rows (a refresh), re-applying the sort and keeping the
    /// cursor on the row with the same identity when it is still there
    /// (else the first row).
    pub fn set_rows(&mut self, rows: Vec<R>)
        ensures
            final(self).columns_spec() == old(self).columns_spec(),
            final(self).sort_spec() == old(self).sort_spec(),
            final(self).focused_spec() == old(self).focused_spec(),
            is_sorting(
                rows@,
                final(self).rows_spec(),
                sort_field_of(old(self).columns_spec(), old(self).sort_spec().column@),
                old(self).sort_spec().order == SortOrder::Desc,
            ),
            final(self).selection_ok(),
            old(self).rows_spec().len() == 0 ==> final(self).selected_spec() == 0,
            holds_cursor(old(self).rows_spec(), old(self).selected_spec(), final(self).rows_spec(), final(self).selected_spec(), 0),
    {
        proof {
            use_type_invariant(&*self);
        }
        let id = self.selected_identity();
        let field = resolve_field(&self.columns, self.sort.column.as_str());
        let sorted = sort_rows(rows, field.as_str(), self.sort.order);
        let sel = TableView::refind(&sorted, id, 0);
        proof {
            lemma_holds_cursor(self.rows@, self.selected as int, sorted@, sel as int, 0, id);
        }
        self.selected = 0;
        self.rows = sorted;
        self.selected = sel;
    }

    /// Cursor down one row, stopping at the last.
    pub fn select_next(&mut self)
        ensures
            final(self).rows_spec() == old(self).rows_spec(),
            final(self).columns_spec() == old(self).columns_spec(),
            final(self).sort_spec() == old(self).sort_spec(),
            final(self).focused_spec() == old(self).focused_spec(),
            final(self).selected_spec() == if old(self).rows_spec().len() == 0 {
                old(self).selected_spec()
            } else if old(self).selected_spec() + 1 < old(self).rows_spec().len() {
                old(self).selected_spec() + 1
            } else {
                old(self).rows_spec().len() - 1
            },
    {
        proof {
            use_type_invariant(&*self);
        }
        let n = self.rows.len();
        if n == 0 {
            return ;
        }
        self.selected = if self.selected + 1 < n {
            self.selected + 1
        } else {
            n - 1
        };
    }

    /// Cursor up one row, stopping at the first.
    pub fn select_prev(&mut self)
        ensures
            final(self).rows_spec() == old(self).rows_spec(),
            final(self).columns_spec() == old(self).columns_spec(),
            final(self).sort_spec() == old(self).sort_spec(),
            final(self).focused_spec() == old(self).focused_spec(),
            final(self).selected_spec() == if old(self).selected_spec() > 0 {
                old(self).selected_spec() - 1
            } else {
                0
            },
    {
        proof {
            use_type_invariant(&*self);
        }
        if self.selected > 0 {
            self.selected -= 1;
        }
    }

    /// Re-sort by the current sort, keeping the cursor on the row with the
    /// same identity (or where it was, clamped).
    fn resort_holding_cursor(&mut self)
        ensures
            holds_cursor(
                old(self).rows_spec(),
                old(self).selected_spec(),
                final(self).rows_spec(),
                final(self).selected_spec(),
                old(self).selected_spec(),
            ),
            final(self).columns_spec() == old(self).columns_spec(),
            final(self).sort_spec() == old(self).sort_spec(),
            final(self).focused_spec() == old(self).focused_spec(),
            is_sorting(
                old(self).rows_spec(),
                final(self).rows_spec(),
                sort_field_of(old(self).columns_spec(), old(self).sort_spec().column@),
                old(self).sort_spec().order == SortOrder::Desc,
            ),
    {
        proof {
            use_type_invariant(&*self);
        }
        let id = self.selected_identity();
        let field = resolve_field(&self.columns, self.sort.column.as_str());
        let fallback = self.selected;
        self.selected = 0;
        let mut rows: Vec<R> = Vec::new();
        std::mem::swap(&mut rows, &mut self.rows);
        let sorted = sort_rows(rows, field.as_str(), self.sort.order);
        let sel = TableView::refind(&sorted, id, fallback);
        proof {
            lemma_holds_cursor(old(self).rows_spec(), old(self).selected_spec(), sorted@, sel as int, fallback as int, id);
        }
        self.rows = sorted;
        self.selected = sel;
    }

    /// Reverse the sort direction and re-sort, holding the cursor on the same
    /// row.
    pub fn toggle_sort_direction(&mut self)
        ensures
            final(self).columns_spec() == old(self).columns_spec(),
            final(self).focused_spec() == old(self).focused_spec(),
            final(self).sort_spec().column == old(self).sort_spec().column,
            holds_cursor(
                old(self).rows_spec(),
                old(self).selected_spec(),
                final(self).rows_spec(),
                final(self).selected_spec(),
                old(self).selected_spec(),
            ),
            final(self).sort_spec().order == (match old(self).sort_spec().order {
                SortOrder::Asc => SortOrder::Desc,
                SortOrder::Desc => SortOrder::Asc,
            }),
            is_sorting(
                old(self).rows_spec(),
                final(self).rows_spec(),
                sort_field_of(final(self).columns_spec(), final(self).sort_spec().column@),
                final(self).sort_spec().order == SortOrder::Desc,
            ),
    {
        proof {
            use_type_invariant(&*self);
        }
        self.sort.order = self.sort.order.toggled();
        self.resort_holding_cursor();
    }

    /// Sort by the column with header `header`, keeping the direction and
    /// the cursor's row. Refused, with the table unchanged, when no column
    /// has that header.
    pub fn sort_by(&mut self, header: &str) -> (r: Result<(), TableError>)
        ensures
            r is Err == !declared(old(self).columns_spec(), header@),
            r matches Err(TableError::UnknownSortColumn(h)) ==> h@ == header@ && final(self).rows_spec()
                == old(self).rows_spec() && final(self).selected_spec() == old(self).selected_spec()
                && final(self).sort_spec() == old(self).sort_spec(),
            final(self).columns_spec() == old(self).columns_spec(),
            final(self).focused_spec() == old(self).focused_spec(),
            r is Ok ==> {
                &&& final(self).sort_spec().column@ == header@
                &&& final(self).sort_spec().order == old(self).sort_spec().order
                &&& holds_cursor(
                old(self).rows_spec(),
                old(self).selected_spec(),
                final(self).rows_spec(),
                final(self).selected_spec(),
                old(self).selected_spec(),
            )
                &&& is_sorting(
                old(self).rows_spec(),
                final(self).rows_spec(),
                sort_field_of(final(self).columns_spec(), final(self).sort_spec().column@),
                final(self).sort_spec().order == SortOrder::Desc,
            )
            },
    {
        proof {
            use_type_invariant(&*self);
        }
        if !header_declared(&self.columns, header) {
            return Err(TableError::UnknownSortColumn(header.to_owned()));
        }
        self.sort.column = header.to_owned();
        self.resort_holding_cursor();
        Ok(())
    }

    /// The text `row` shows in `column`: its identity for the identity
    /// column, else its cell, `""` when it has none.
    pub fn cell_value<'a>(&self, row: &'a R, column: &Column) -> (r: &'a str)
        ensures
            projected(row, column.field@, r),
    {
        project(row, column.field.as_str())
    }
}

impl<R: Clone> Clone for TableView<R> {
    fn clone(&self) -> (r: Self)
        ensures
            r.columns_spec().len() == self.columns_spec().len(),
            r.rows_spec().len() == self.rows_spec().len(),
            r.selected_spec() == self.selected_spec(),
            r.focused_spec() == self.focused_spec(),
    {
        proof {
            use_type_invariant(self);
        }
        let mut rows: Vec<R> = Vec::new();
        let mut i: usize = 0;
        while i < self.rows.len()
            invariant
                i <= self.rows@.len(),
                rows@.len() == i,
            decreases self.rows@.len() - i,
        {
            rows.push(self.rows[i].clone());
            i += 1;
        }
        let mut columns: Vec<Column> = Vec::new();
        let mut k: usize = 0;
        while k < self.columns.len()
            invariant
                k <= self.columns@.len(),
                columns@.len() == k,
                forall|j: int| 0 <= j < k ==> columns@[j].header@ == self.columns@[j].header@,
            decreases self.columns@.len() - k,
        {
            let c = Column {
                header: self.columns[k].header.clone(),
                field: self.columns[k].field.clone(),
            };
            columns.push(c);
            k += 1;
        }
        let sort = SortKey { column: self.sort.column.clone(), order: self.sort.order };
        assert(declared(columns@, sort.column@)) by {
            let j = choose|j: int|
                0 <= j < self.columns@.len() && (#[trigger] self.columns@[j]).header@
                    == self.sort.column@;
            assert(columns@[j].header@ == sort.column@);
        }
        TableView { columns, rows, selected: self.selected, sort, focused: self.focused }
    }
}

/// The table's own selection methods are the trait's; movement saturates.
impl<R: TableRow> Selectable for TableView<R> {
    fn selected_index(&self) -> (r: usize)
        ensures
            r == self.selected_spec(),
            self.selection_ok(),
    {
        TableView::selected_index(self)
    }

    fn len(&self) -> (r: usize)
        ensures
            r == self.rows_spec().len(),
    {
        TableView::len(self)
    }

    fn select_next(&mut self)
        ensures
            final(self).rows_spec() == old(self).rows_spec(),
            final(self).selected_spec() == if old(self).rows_spec().len() == 0 {
                old(self).selected_spec()
            } else if old(self).selected_spec() + 1 < old(self).rows_spec().len() {
                old(self).selected_spec() + 1
            } else {
                old(self).rows_spec().len() - 1
            },
    {
        TableView::select_next(self);
    }

    fn select_prev(&mut self)
        ensures
            final(self).rows_spec() == old(self).rows_spec(),
            final(self).selected_spec() == if old(self).selected_spec() > 0 {
                old(self).selected_spec() - 1
            } else {
                0
            },
    {
        TableView::select_prev(self);
    }

    fn is_empty(&self) -> (r: bool)
        ensures
            r == (self.rows_spec().len() == 0),
    {
        TableView::is_empty(self)
    }
}

} // verus!
