//! Descriptions of upstream MySQL tables and of the exports that read them.

use vstd::prelude::*;
use vstd::string::*;

use crate::order::{
    lemma_lexicographic_order, lemma_text_order, lexicographic, str_before, strict_total_order,
    text_before, text_order,
};
use crate::text::{enclosed, law_enclosed_reads_back, quote_identifier, scan_quoted, texts};

verus! {

/// The scalar type of a column, as far as it matters for splitting a table by key.
#[derive(Debug, Clone, Copy, PartialEq, Eq, Structural)]
pub enum SqlScalarType {
    Int16,
    Int32,
    Int64,
    UInt16,
    UInt32,
    UInt64,
    Char { length: Option<u32> },
    VarChar { max_length: Option<u32> },
    String,
    Bytes,
    /// Any other type.
    Other,
}

/// The type of a column.
#[derive(Debug, Clone, Copy)]
pub struct SqlColumnType {
    pub scalar_type: SqlScalarType,
    pub nullable: bool,
}

/// A column of a table. Columns that are not ingested have no type.
#[derive(Debug, Clone)]
pub struct MySqlColumnDesc {
    pub name: String,
    pub column_type: Option<SqlColumnType>,
}

/// A key of a table.
#[derive(Debug)]
pub struct MySqlKeyDesc {
    pub name: String,
    pub is_primary: bool,
    pub columns: Vec<String>,
}

/// What a [`MySqlKeyDesc`] stands for: its name, whether it is primary, and its columns.
pub struct KeyView {
    pub name: Seq<char>,
    pub is_primary: bool,
    pub columns: Seq<Seq<char>>,
}

impl View for MySqlKeyDesc {
    type V = KeyView;

    open spec fn view(&self) -> KeyView {
        KeyView { name: self.name@, is_primary: self.is_primary, columns: texts(self.columns@) }
    }
}

/// The order of keys: by name, then secondary keys before primary ones, then by columns.
pub open spec fn key_before(a: KeyView, b: KeyView) -> bool {
    ||| text_before(a.name, b.name)
    ||| a.name == b.name && !a.is_primary && b.is_primary
    ||| a.name == b.name && a.is_primary == b.is_primary && lexicographic(
        a.columns,
        b.columns,
        text_order(),
    )
}

/// The order of keys is a strict total order.
pub proof fn lemma_key_order()
    ensures
        strict_total_order(|a: KeyView, b: KeyView| key_before(a, b)),
{
    lemma_text_order();
    lemma_lexicographic_order(text_order());
    let columns_order = |a: Seq<Seq<char>>, b: Seq<Seq<char>>| lexicographic(a, b, text_order());
    let lt = |a: KeyView, b: KeyView| key_before(a, b);
    assert forall|a: KeyView| !#[trigger] lt(a, a) by {
        assert(!text_order()(a.name, a.name));
        assert(!columns_order(a.columns, a.columns));
    }
    assert forall|a: KeyView, b: KeyView, c: KeyView| #[trigger]
        lt(a, b) && #[trigger] lt(b, c) implies lt(a, c) by {
        assert(text_order()(a.name, b.name) && text_order()(b.name, c.name) ==> text_order()(
            a.name,
            c.name,
        ));
        assert(columns_order(a.columns, b.columns) && columns_order(b.columns, c.columns)
            ==> columns_order(a.columns, c.columns));
    }
    assert forall|a: KeyView, b: KeyView| a == b || #[trigger] lt(a, b) || lt(b, a) by {
        assert(a.name == b.name || text_order()(a.name, b.name) || text_order()(b.name, a.name));
        assert(a.columns == b.columns || columns_order(a.columns, b.columns) || columns_order(
            b.columns,
            a.columns,
        ));
    }
}

/// Whether the columns `a` come before the columns `b`.
fn columns_before(a: &Vec<String>, b: &Vec<String>) -> (r: bool)
    ensures
        r == lexicographic(texts(a@), texts(b@), text_order()),
{
    let ghost x = texts(a@);
    let ghost y = texts(b@);
    let mut i: usize = 0;
    proof {
        assert(x.skip(0) =~= x);
        assert(y.skip(0) =~= y);
    }
    while i < a.len() && i < b.len()
        invariant
            i <= a@.len(),
            i <= b@.len(),
            x == texts(a@),
            y == texts(b@),
            lexicographic(x, y, text_order()) == lexicographic(
                x.skip(i as int),
                y.skip(i as int),
                text_order(),
            ),
        decreases a@.len() - i,
    {
        proof {
            assert(x.skip(i as int).skip(1) =~= x.skip(i + 1));
            assert(y.skip(i as int).skip(1) =~= y.skip(i + 1));
            lemma_text_order();
            assert(!text_order()(x[i as int], x[i as int]));
        }
        if a[i] != b[i] {
            return str_before(a[i].as_str(), b[i].as_str());
        }
        i += 1;
    }
    i < b.len()
}

impl Clone for MySqlKeyDesc {
    fn clone(&self) -> (r: MySqlKeyDesc)
        ensures
            r@ == self@,
    {
        let r = MySqlKeyDesc {
            name: self.name.clone(),
            is_primary: self.is_primary,
            columns: self.columns.clone(),
        };
        assert(r.columns@ =~= self.columns@);
        r
    }
}

impl MySqlKeyDesc {
    /// Whether this key comes before `other`.
    fn before(&self, other: &MySqlKeyDesc) -> (r: bool)
        ensures
            r == key_before(self@, other@),
    {
        proof {
            lemma_text_order();
            assert(!text_order()(self@.name, self@.name));
        }
        if self.name != other.name {
            str_before(self.name.as_str(), other.name.as_str())
        } else if self.is_primary != other.is_primary {
            !self.is_primary
        } else {
            columns_before(&self.columns, &other.columns)
        }
    }
}

/// The keys of a table, each once, in their order.
#[derive(Debug)]
pub struct KeySet {
    keys: Vec<MySqlKeyDesc>,
}

/// The contents of a list of keys.
pub open spec fn key_views(keys: Seq<MySqlKeyDesc>) -> Seq<KeyView> {
    keys.map_values(|k: MySqlKeyDesc| k@)
}

/// Every element comes before all later ones.
pub open spec fn keys_sorted(keys: Seq<KeyView>) -> bool {
    forall|i: int, j: int|
        0 <= i < j < keys.len() ==> key_before(#[trigger] keys[i], #[trigger] keys[j])
}

/// The primary ones among `keys`, in the same order.
pub open spec fn primary_keys(keys: Seq<KeyView>) -> Seq<KeyView> {
    keys.filter(|k: KeyView| k.is_primary)
}

/// Where nothing before position `i` of `s` satisfies `p`: if the element there does, it is the
/// first that does, and otherwise nothing up to it does.
pub proof fn lemma_first_match<T>(s: Seq<T>, p: spec_fn(T) -> bool, i: int)
    requires
        0 <= i < s.len(),
        s.take(i).filter(p).len() == 0,
    ensures
        p(s[i]) ==> s.filter(p).len() > 0 && s.filter(p)[0] == s[i],
        !p(s[i]) ==> s.take(i + 1).filter(p).len() == 0,
{
    broadcast use Seq::lemma_filter_push;

    assert(s.take(i + 1) =~= s.take(i).push(s[i]));
    assert(s =~= s.take(i + 1) + s.skip(i + 1));
    Seq::filter_distributes_over_add(s.take(i + 1), s.skip(i + 1), p);
}

impl View for KeySet {
    type V = Seq<KeyView>;

    closed spec fn view(&self) -> Seq<KeyView> {
        key_views(self.keys@)
    }
}

impl Clone for KeySet {
    fn clone(&self) -> (r: KeySet)
        ensures
            r@ == self@,
    {
        proof {
            use_type_invariant(self);
        }
        let mut keys: Vec<MySqlKeyDesc> = Vec::new();
        let mut i: usize = 0;
        while i < self.keys.len()
            invariant
                i <= self.keys@.len(),
                key_views(keys@) == key_views(self.keys@).take(i as int),
            decreases self.keys@.len() - i,
        {
            let ghost done = keys@;
            keys.push(self.keys[i].clone());
            assert(key_views(keys@) =~= key_views(done).push(self.keys@[i as int]@));
            i += 1;
        }
        assert(key_views(keys@) =~= key_views(self.keys@));
        KeySet { keys }
    }
}

impl KeySet {
    #[verifier::type_invariant]
    spec fn sorted(self) -> bool {
        keys_sorted(key_views(self.keys@))
    }

    /// A table without keys.
    pub fn new() -> (r: KeySet)
        ensures
            r@ == Seq::<KeyView>::empty(),
    {
        let r = KeySet { keys: Vec::new() };
        assert(r@ =~= Seq::<KeyView>::empty());
        r
    }

    /// The first primary key, if there is any.
    pub fn primary(&self) -> (r: Option<&MySqlKeyDesc>)
        ensures
            match r {
                Some(key) => primary_keys(self@).len() > 0 && key@ == primary_keys(self@)[0],
                None => primary_keys(self@).len() == 0,
            },
    {
        let mut i: usize = 0;
        proof {
            assert(self@.take(0) =~= Seq::<KeyView>::empty());
            reveal(Seq::filter);
        }
        while i < self.keys.len()
            invariant
                i <= self.keys@.len(),
                self@ == key_views(self.keys@),
                primary_keys(self@.take(i as int)).len() == 0,
            decreases self.keys@.len() - i,
        {
            proof {
                lemma_first_match(self@, |k: KeyView| k.is_primary, i as int);
            }
            if self.keys[i].is_primary {
                return Some(&self.keys[i]);
            }
            i += 1;
        }
        assert(self@.take(i as int) =~= self@);
        None
    }

    /// Adds `key`, which has no effect if the same key is there already. Gives whether the key
    /// is new.
    pub fn insert(&mut self, key: MySqlKeyDesc) -> (added: bool)
        ensures
            added == !old(self)@.contains(key@),
            keys_sorted(final(self)@),
            final(self)@.to_set() == old(self)@.to_set().insert(key@),
    {
        proof {
            use_type_invariant(&*self);
        }
        let mut keys = Vec::new();
        let ghost before = self@;
        std::mem::swap(&mut keys, &mut self.keys);
        let mut i: usize = 0;
        while i < keys.len() && keys[i].before(&key)
            invariant
                i <= keys@.len(),
                before == key_views(keys@),
                keys_sorted(before),
                forall|j: int| 0 <= j < i ==> key_before(#[trigger] before[j], key@),
            decreases keys@.len() - i,
        {
            i += 1;
        }
        proof {
            lemma_key_order();
        }
        let ghost lt = |a: KeyView, b: KeyView| key_before(a, b);
        let present = i < keys.len() && !key.before(&keys[i]);
        if present {
            proof {
                assert(before[i as int] == key@ || lt(before[i as int], key@) || lt(
                    key@,
                    before[i as int],
                ));
                assert(before.contains(key@));
                assert(before.to_set().insert(key@) =~= before.to_set());
            }
            self.keys = keys;
            false
        } else {
            proof {
                assert forall|j: int| 0 <= j < before.len() implies #[trigger] before[j]
                    != key@ by {
                    assert(!lt(key@, key@));
                    if j < i {
                        assert(lt(before[j], key@));
                    } else {
                        assert(lt(key@, before[i as int]));
                        if j > i {
                            assert(lt(before[i as int], before[j]));
                            assert(lt(key@, before[j]));
                        }
                    }
                }
            }
            keys.insert(i, key);
            proof {
                let after = key_views(keys@);
                assert(after =~= before.insert(i as int, key@));
                assert forall|a: int, b: int| 0 <= a < b < after.len() implies key_before(
                    #[trigger] after[a],
                    #[trigger] after[b],
                ) by {
                    if a == i {
                        assert(lt(key@, before[i as int]));
                        if b > i + 1 {
                            assert(lt(before[i as int], before[b - 1]));
                            assert(lt(key@, before[b - 1]));
                        }
                    } else if b == i {
                    } else if a < i && b > i {
                        assert(key_before(before[a], before[b - 1]));
                    } else if a > i {
                        assert(key_before(before[a - 1], before[b - 1]));
                    } else {
                        assert(key_before(before[a], before[b]));
                    }
                }
                assert forall|k: KeyView| after.to_set().contains(k)
                    == before.to_set().insert(key@).contains(k) by {
                    if before.contains(k) {
                        let j = choose|j: int| 0 <= j < before.len() && before[j] == k;
                        if j < i {
                            assert(after[j] == k);
                        } else {
                            assert(after[j + 1] == k);
                        }
                    }
                    assert(after[i as int] == key@);
                }
                assert(after.to_set() =~= before.to_set().insert(key@));
            }
            self.keys = keys;
            true
        }
    }
}

/// A table: its schema and its name in it.
#[derive(Debug)]
pub struct MySqlTableName(pub String, pub String);

impl View for MySqlTableName {
    type V = (Seq<char>, Seq<char>);

    open spec fn view(&self) -> (Seq<char>, Seq<char>) {
        (self.0@, self.1@)
    }
}

/// How a table is named in SQL text: both parts quoted, with a dot between them.
pub open spec fn table_text(table: (Seq<char>, Seq<char>)) -> Seq<char> {
    enclosed(table.0, '`') + "."@ + enclosed(table.1, '`')
}

/// The order of tables: by schema, then by name.
pub open spec fn table_before(a: (Seq<char>, Seq<char>), b: (Seq<char>, Seq<char>)) -> bool {
    text_before(a.0, b.0) || (a.0 == b.0 && text_before(a.1, b.1))
}

/// [`table_before`] as a value.
pub open spec fn table_order() -> spec_fn((Seq<char>, Seq<char>), (Seq<char>, Seq<char>)) -> bool {
    |a: (Seq<char>, Seq<char>), b: (Seq<char>, Seq<char>)| table_before(a, b)
}

/// The order of tables is a strict total order.
pub proof fn lemma_table_order()
    ensures
        strict_total_order(table_order()),
{
    lemma_text_order();
    let lt = table_order();
    let text = text_order();
    assert forall|a: (Seq<char>, Seq<char>)| !#[trigger] lt(a, a) by {
        assert(!text(a.0, a.0));
        assert(!text(a.1, a.1));
    }
    assert forall|a: (Seq<char>, Seq<char>), b: (Seq<char>, Seq<char>), c: (Seq<char>, Seq<char>)|
        #[trigger] lt(a, b) && #[trigger] lt(b, c) implies lt(a, c) by {
        assert(text(a.0, b.0) && text(b.0, c.0) ==> text(a.0, c.0));
        assert(text(a.1, b.1) && text(b.1, c.1) ==> text(a.1, c.1));
    }
    assert forall|a: (Seq<char>, Seq<char>), b: (Seq<char>, Seq<char>)|
        a == b || #[trigger] lt(a, b) || lt(b, a) by {
        assert(a.0 == b.0 || text(a.0, b.0) || text(b.0, a.0));
        assert(a.1 == b.1 || text(a.1, b.1) || text(b.1, a.1));
    }
}

/// A table's SQL name reads back as the schema and the name, with nothing swallowed of what
/// follows it, as long as that does not go on with a backtick.
pub proof fn law_table_text_reads_back(table: (Seq<char>, Seq<char>), rest: Seq<char>)
    requires
        rest.len() == 0 || rest[0] != '`',
    ensures
        scan_quoted(table_text(table) + rest, '`') == Some(
            (table.0, "."@ + enclosed(table.1, '`') + rest),
        ),
        scan_quoted(enclosed(table.1, '`') + rest, '`') == Some((table.1, rest)),
{
    reveal_strlit(".");
    let tail = "."@ + enclosed(table.1, '`') + rest;
    assert(table_text(table) + rest =~= enclosed(table.0, '`') + tail);
    law_enclosed_reads_back(table.0, '`', tail);
    law_enclosed_reads_back(table.1, '`', rest);
}

/// Different tables have different SQL names.
pub proof fn law_table_text_is_injective(a: (Seq<char>, Seq<char>), b: (Seq<char>, Seq<char>))
    requires
        table_text(a) == table_text(b),
    ensures
        a == b,
{
    let none = Seq::<char>::empty();
    law_table_text_reads_back(a, none);
    law_table_text_reads_back(b, none);
    let x = "."@ + enclosed(a.1, '`') + none;
    let y = "."@ + enclosed(b.1, '`') + none;
    assert(x == y);
    assert(x.skip("."@.len() as int) =~= enclosed(a.1, '`') + none);
    assert(y.skip("."@.len() as int) =~= enclosed(b.1, '`') + none);
}

impl Clone for MySqlTableName {
    fn clone(&self) -> (r: MySqlTableName)
        ensures
            r@ == self@,
    {
        MySqlTableName(self.0.clone(), self.1.clone())
    }
}

impl MySqlTableName {
    /// The table's name in SQL text.
    pub fn to_string(&self) -> (r: String)
        ensures
            r@ == table_text(self@),
    {
        let mut r = quote_identifier(self.0.as_str());
        r.append(".");
        r.append(quote_identifier(self.1.as_str()).as_str());
        r
    }

    /// Whether this is the same table as `other`.
    pub fn same(&self, other: &MySqlTableName) -> (r: bool)
        ensures
            r == (self@ == other@),
    {
        self.0 == other.0 && self.1 == other.1
    }

    /// Whether this table comes before `other`.
    pub fn before(&self, other: &MySqlTableName) -> (r: bool)
        ensures
            r == table_before(self@, other@),
    {
        proof {
            lemma_text_order();
            assert(!text_order()(self.0@, self.0@));
        }
        if self.0 != other.0 {
            str_before(self.0.as_str(), other.0.as_str())
        } else {
            str_before(self.1.as_str(), other.1.as_str())
        }
    }
}

/// A table as it was found upstream.
#[derive(Debug, Clone)]
pub struct MySqlTableDesc {
    pub schema_name: String,
    pub name: String,
    pub columns: Vec<MySqlColumnDesc>,
    pub keys: KeySet,
}

/// How far a transaction source has got.
#[derive(Debug, Clone, Copy, PartialEq, Eq, Structural)]
pub enum GtidState {
    /// No transaction of the source has been seen.
    Absent,
    /// All transactions before this one have been seen.
    Active(u64),
}

/// The progress of all transaction sources whose ids lie in a range, both ends included.
#[derive(Debug, Clone, Copy, PartialEq, Eq, Structural)]
pub struct GtidPartition {
    pub lower: u128,
    pub upper: u128,
    pub timestamp: GtidState,
}

impl GtidPartition {
    /// The time at which nothing has been seen of any source.
    pub open spec fn spec_minimum() -> GtidPartition {
        GtidPartition { lower: 0, upper: u128::MAX, timestamp: GtidState::Absent }
    }

    /// The time at which nothing has been seen of any source.
    pub fn minimum() -> (r: GtidPartition)
        ensures
            r == GtidPartition::spec_minimum(),
            r.lower == 0,
            r.upper == u128::MAX,
            r.timestamp == GtidState::Absent,
    {
        GtidPartition { lower: 0, upper: u128::MAX, timestamp: GtidState::Absent }
    }
}

/// The object that an export writes to.
#[derive(Debug, Clone, Copy, PartialEq, Eq, Structural)]
pub enum GlobalId {
    System(u64),
    User(u64),
    Transient(u64),
}

/// An output of a source: the export of one upstream table.
#[derive(Debug, Clone)]
pub struct SourceOutputInfo {
    pub output_index: usize,
    pub table_name: MySqlTableName,
    pub desc: MySqlTableDesc,
    pub text_columns: Vec<String>,
    pub exclude_columns: Vec<String>,
    /// The frontier at which the export was created.
    pub initial_gtid_set: Vec<GtidPartition>,
    /// The frontier from which ingestion of the output resumes.
    pub resume_upper: Vec<GtidPartition>,
    pub export_id: GlobalId,
    pub binlog_full_metadata: bool,
}

/// Tables are ordered by their schemas, and within a schema by their names.
pub proof fn law_table_order_goes_by_schema_first(
    a: (Seq<char>, Seq<char>),
    b: (Seq<char>, Seq<char>),
)
    ensures
        text_before(a.0, b.0) ==> table_before(a, b),
        text_before(b.0, a.0) ==> !table_before(a, b),
        a.0 == b.0 ==> (table_before(a, b) <==> text_before(a.1, b.1)),
{
    lemma_text_order();
    assert(text_order()(a.0, b.0) && text_order()(b.0, a.0) ==> text_order()(a.0, a.0));
    assert(!text_order()(a.0, a.0));
}

/// Keys are ordered by their names. Of two keys with one name the secondary one comes first, and
/// otherwise the one whose columns come first.
pub proof fn law_key_order_goes_by_name_first(a: KeyView, b: KeyView)
    ensures
        text_before(a.name, b.name) ==> key_before(a, b),
        text_before(b.name, a.name) ==> !key_before(a, b),
        a.name == b.name && !a.is_primary && b.is_primary ==> key_before(a, b),
        a.name == b.name && a.is_primary && !b.is_primary ==> !key_before(a, b),
        a.name == b.name && a.is_primary == b.is_primary ==> (key_before(a, b) <==> lexicographic(
            a.columns,
            b.columns,
            text_order(),
        )),
{
    lemma_text_order();
    assert(text_order()(a.name, b.name) && text_order()(b.name, a.name) ==> text_order()(
        a.name,
        a.name,
    ));
    assert(!text_order()(a.name, a.name));
}

/// The primary key of a table is the least of its primary keys, if it has any.
pub proof fn law_primary_key_is_the_least(keys: Seq<KeyView>, k: int)
    requires
        keys_sorted(keys),
        0 <= k < keys.len(),
        keys[k].is_primary,
    ensures
        primary_keys(keys).len() > 0,
        primary_keys(keys)[0].is_primary,
        keys.contains(primary_keys(keys)[0]),
        primary_keys(keys)[0] == keys[k] || key_before(primary_keys(keys)[0], keys[k]),
{
    lemma_first_primary(keys, k);
}

/// A table without a primary key has none.
pub proof fn law_no_primary_key(keys: Seq<KeyView>)
    requires
        forall|k: int| 0 <= k < keys.len() ==> !(#[trigger] keys[k]).is_primary,
    ensures
        primary_keys(keys).len() == 0,
{
    let p = |k: KeyView| k.is_primary;
    assert forall|k: int| 0 <= k < keys.len() implies !p(#[trigger] keys[k]) by {}
    keys.lemma_all_neg_filter_empty(p);
}

/// The first primary key, where there is one at position `k`.
proof fn lemma_first_primary(keys: Seq<KeyView>, k: int)
    requires
        keys_sorted(keys),
        0 <= k < keys.len(),
        keys[k].is_primary,
    ensures
        primary_keys(keys).len() > 0,
        exists|i: int|
            0 <= i <= k && #[trigger] keys[i] == primary_keys(keys)[0] && keys[i].is_primary,
        primary_keys(keys)[0] == keys[k] || key_before(primary_keys(keys)[0], keys[k]),
    decreases k,
{
    let p = |x: KeyView| x.is_primary;
    if exists|i: int| 0 <= i < k && (#[trigger] keys[i]).is_primary {
        let i = choose|i: int| 0 <= i < k && (#[trigger] keys[i]).is_primary;
        lemma_first_primary(keys, i);
        let f = choose|f: int|
            0 <= f <= i && #[trigger] keys[f] == primary_keys(keys)[0] && keys[f].is_primary;
        assert(key_before(keys[f], keys[k]));
    } else {
        assert forall|i: int| 0 <= i < k implies !p(#[trigger] keys.take(k)[i]) by {
            assert(keys.take(k)[i] == keys[i]);
        }
        keys.take(k).lemma_all_neg_filter_empty(p);
        lemma_first_match(keys, p, k);
    }
}

/// What a key and a table's name stand for is made up of their parts.
pub proof fn law_views_keep_all_parts(key: MySqlKeyDesc, table: MySqlTableName)
    ensures
        key@.name == key.name@,
        key@.is_primary == key.is_primary,
        key@.columns.len() == key.columns@.len(),
        forall|i: int|
            0 <= i < key.columns@.len() ==> #[trigger] key@.columns[i] == key.columns@[i]@,
        table@ == (table.0@, table.1@),
{
}

} // verus!
