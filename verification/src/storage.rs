//! Storage: generic tables and databases keyed by an abstract key type, plus
//! the two-variant key-type-erasure layer that exposes the same operations
//! without static genericity. A table keeps its records sorted in ascending
//! key order, with no two records sharing a key.

use vstd::prelude::*;
use vstd::string::{StrSliceExecFns, StringExecFns};
use crate::errors::{ErrModel, MyDatabaseError};
use crate::strmap::{assoc_keys, assoc_lookup, assoc_set, assoc_wf, lemma_assoc_set_is_update, Record, StrKeyMap};
use crate::strmap::{lemma_assoc_lookup_at, lemma_assoc_lookup_exists};
use crate::tokenizer::str_eq;
use crate::values::{
    has_type, i64_from_text, key_lt, lemma_key_lt_irrefl, lemma_key_lt_trans, lemma_lex_lt_total,
    parse_i64, str_lt, value_matches_type, KeyModel, Value, ValueModel, ValueType,
};
use crate::where_parsing::{evaluate_model, WhereClause};

verus! {

/// The key type of one concrete database: equality, total order, a check
/// that a schema type can act as this key's storage type, extraction from a
/// stored value, and parsing from raw text.
pub trait DatabaseKey: Sized {
    /// The mathematical key this value stands for.
    spec fn model(&self) -> KeyModel;

    /// The schema types acceptable for a key column of this key type.
    spec fn type_ok(t: ValueType) -> bool;

    /// What extraction from a stored value yields.
    spec fn from_value_model(v: ValueModel) -> Option<KeyModel>;

    /// What parsing from raw text yields.
    spec fn from_text_model(s: Seq<char>) -> Option<KeyModel>;

    /// Every extracted or parsed key carries this key type's model shape, so
    /// keys of one table are always mutually comparable.
    proof fn lemma_models_comparable(a: &Self, b: &Self)
        ensures
            key_lt(a.model(), b.model()) || key_lt(b.model(), a.model()) || a.model() == b.model(),
    ;

    fn equals(&self, other: &Self) -> (r: bool)
        ensures
            r == (self.model() == other.model()),
    ;

    fn less_than(&self, other: &Self) -> (r: bool)
        ensures
            r == key_lt(self.model(), other.model()),
    ;

    fn validate_value_type(t: &ValueType) -> (r: bool)
        ensures
            r == Self::type_ok(*t),
    ;

    fn get_from_value(val: &Value) -> (r: Option<Self>)
        ensures
            match r {
                Some(k) => Self::from_value_model(val@) == Some(k.model()),
                None => Self::from_value_model(val@) is None,
            },
    ;

    fn get_from_string(s: String) -> (r: Result<Self, MyDatabaseError>)
        ensures
            match r {
                Ok(k) => Self::from_text_model(s@) == Some(k.model()),
                Err(e) => Self::from_text_model(s@) is None && e@ == ErrModel::InvalidFieldValue,
            },
    ;
}

impl DatabaseKey for i64 {
    open spec fn model(&self) -> KeyModel {
        KeyModel::Int(*self)
    }

    open spec fn type_ok(t: ValueType) -> bool {
        t == ValueType::Int
    }

    open spec fn from_value_model(v: ValueModel) -> Option<KeyModel> {
        match v {
            ValueModel::Int(i) => Some(KeyModel::Int(i)),
            _ => None,
        }
    }

    open spec fn from_text_model(s: Seq<char>) -> Option<KeyModel> {
        match i64_from_text(s) {
            Some(i) => Some(KeyModel::Int(i)),
            None => None,
        }
    }

    proof fn lemma_models_comparable(a: &Self, b: &Self) {
    }

    fn equals(&self, other: &Self) -> (r: bool) {
        *self == *other
    }

    fn less_than(&self, other: &Self) -> (r: bool) {
        *self < *other
    }

    fn validate_value_type(t: &ValueType) -> (r: bool) {
        *t == ValueType::Int
    }

    fn get_from_value(val: &Value) -> (r: Option<Self>) {
        if let Value::Int(num) = val {
            Some(*num)
        } else {
            None
        }
    }

    fn get_from_string(s: String) -> (r: Result<Self, MyDatabaseError>) {
        match parse_i64(s.as_str()) {
            Some(num) => Ok(num),
            None => Err(MyDatabaseError::InvalidFieldValue),
        }
    }
}

impl DatabaseKey for String {
    open spec fn model(&self) -> KeyModel {
        KeyModel::Text(self@)
    }

    open spec fn type_ok(t: ValueType) -> bool {
        t == ValueType::String
    }

    open spec fn from_value_model(v: ValueModel) -> Option<KeyModel> {
        match v {
            ValueModel::String(s) => Some(KeyModel::Text(s)),
            _ => None,
        }
    }

    open spec fn from_text_model(s: Seq<char>) -> Option<KeyModel> {
        Some(KeyModel::Text(s))
    }

    proof fn lemma_models_comparable(a: &Self, b: &Self) {
        lemma_lex_lt_total(a@, b@);
    }

    fn equals(&self, other: &Self) -> (r: bool) {
        str_eq(self.as_str(), other.as_str())
    }

    fn less_than(&self, other: &Self) -> (r: bool) {
        str_lt(self.as_str(), other.as_str())
    }

    fn validate_value_type(t: &ValueType) -> (r: bool) {
        *t == ValueType::String
    }

    fn get_from_value(val: &Value) -> (r: Option<Self>) {
        if let Value::String(s) = val {
            Some(s.clone())
        } else {
            None
        }
    }

    fn get_from_string(s: String) -> (r: Result<Self, MyDatabaseError>) {
        Ok(s)
    }
}

/// One row at the model level.
pub type RecordModel = Seq<(Seq<char>, ValueModel)>;

/// A table at the model level: its designated key column, its schema in
/// declaration order, and its records in ascending key order.
pub struct TableModel {
    pub key_name: Seq<char>,
    pub structure: Seq<(Seq<char>, ValueType)>,
    pub records: Seq<(KeyModel, RecordModel)>,
}

/// The record's columns are exactly the schema's, each with a value of the
/// column's type.
pub open spec fn record_matches_schema(
    rec: RecordModel,
    schema: Seq<(Seq<char>, ValueType)>,
) -> bool {
    &&& assoc_wf(rec)
    &&& forall|i: int|
        0 <= i < rec.len() ==> (assoc_lookup(schema, (#[trigger] rec[i]).0) matches Some(t)
            && has_type(rec[i].1, t))
    &&& forall|j: int|
        0 <= j < schema.len() ==> assoc_lookup(rec, (#[trigger] schema[j]).0) is Some
}

impl TableModel {
    /// Records sorted strictly ascending by key.
    pub open spec fn sorted(self) -> bool {
        forall|i: int|
            0 <= i && i + 1 < self.records.len() ==> key_lt(
                (#[trigger] self.records[i]).0,
                self.records[i + 1].0,
            )
    }

    /// No two records share a key.
    pub open spec fn keys_distinct(self) -> bool {
        forall|i: int, j: int|
            0 <= i < j < self.records.len() ==> (#[trigger] self.records[i]).0 != (
            #[trigger] self.records[j]).0
    }

    pub open spec fn contains_key(self, k: KeyModel) -> bool {
        exists|i: int| 0 <= i < self.records.len() && (#[trigger] self.records[i]).0 == k
    }
}

/// Insert before the first record whose key is not smaller.
pub open spec fn insert_sorted(
    records: Seq<(KeyModel, RecordModel)>,
    k: KeyModel,
    rec: RecordModel,
) -> Seq<(KeyModel, RecordModel)>
    decreases records.len(),
{
    if records.len() == 0 {
        seq![(k, rec)]
    } else if key_lt(records[0].0, k) {
        seq![records[0]] + insert_sorted(records.drop_first(), k, rec)
    } else {
        seq![(k, rec)] + records
    }
}

/// Remove the record with the given key.
pub open spec fn remove_key(records: Seq<(KeyModel, RecordModel)>, k: KeyModel) -> Seq<
    (KeyModel, RecordModel),
>
    decreases records.len(),
{
    if records.len() == 0 {
        records
    } else if records[0].0 == k {
        records.drop_first()
    } else {
        seq![records[0]] + remove_key(records.drop_first(), k)
    }
}

/// What inserting a value map does: the column set must equal the schema's
/// with well-typed values, the key must extract from the key column, and the
/// key must be fresh; then the record goes in at its sorted position.
pub open spec fn table_insert_model<K: DatabaseKey>(tm: TableModel, rec: RecordModel) -> Result<
    TableModel,
    ErrModel,
> {
    if !record_matches_schema(rec, tm.structure) {
        Err(ErrModel::KeysMismatch)
    } else {
        match assoc_lookup(rec, tm.key_name) {
            None => Err(ErrModel::KeysMismatch),
            Some(kv) => match K::from_value_model(kv) {
                None => Err(ErrModel::KeysMismatch),
                Some(k) => if tm.contains_key(k) {
                    Err(ErrModel::RecordAlreadyExists)
                } else {
                    Ok(
                        TableModel {
                            key_name: tm.key_name,
                            structure: tm.structure,
                            records: insert_sorted(tm.records, k, rec),
                        },
                    )
                },
            },
        }
    }
}

/// What deleting by key text does: the text must parse as a key that is
/// present; the record with that key leaves.
pub open spec fn table_delete_model<K: DatabaseKey>(tm: TableModel, key_text: Seq<char>) -> Result<
    TableModel,
    ErrModel,
> {
    match K::from_text_model(key_text) {
        None => Err(ErrModel::InvalidFieldValue),
        Some(k) => if tm.contains_key(k) {
            Ok(
                TableModel {
                    key_name: tm.key_name,
                    structure: tm.structure,
                    records: remove_key(tm.records, k),
                },
            )
        } else {
            Err(ErrModel::KeyNotFound)
        },
    }
}

/// The requested columns of one record, in request order.
pub open spec fn project_model(rec: RecordModel, cols: Seq<Seq<char>>, i: int) -> Result<
    Seq<ValueModel>,
    ErrModel,
>
    decreases cols.len() - i,
{
    if i < 0 || i >= cols.len() {
        Ok(Seq::empty())
    } else {
        match assoc_lookup(rec, cols[i]) {
            None => Err(ErrModel::InvalidFieldName),
            Some(v) => match project_model(rec, cols, i + 1) {
                Err(e) => Err(e),
                Ok(rest) => Ok(seq![v] + rest),
            },
        }
    }
}

/// The projected rows of the records from position `i` on that the optional
/// clause accepts, in key order; a clause error aborts the whole selection.
pub open spec fn select_rows_model(
    records: Seq<(KeyModel, RecordModel)>,
    i: int,
    cols: Seq<Seq<char>>,
    cond: Option<Seq<crate::where_parsing::ClauseModel>>,
) -> Result<Seq<Seq<ValueModel>>, ErrModel>
    decreases records.len() - i,
{
    if i < 0 || i >= records.len() {
        Ok(Seq::empty())
    } else {
        let keep = match cond {
            Some(c) => evaluate_model(c, records[i].1),
            None => Ok(true),
        };
        match keep {
            Err(e) => Err(e),
            Ok(b) => {
                if b {
                    match project_model(records[i].1, cols, 0) {
                        Err(e) => Err(e),
                        Ok(row) => match select_rows_model(records, i + 1, cols, cond) {
                            Err(e) => Err(e),
                            Ok(rest) => Ok(seq![row] + rest),
                        },
                    }
                } else {
                    select_rows_model(records, i + 1, cols, cond)
                }
            },
        }
    }
}

/// What a whole selection does: every requested column must be in the schema,
/// and the output is the requested columns of each surviving record in key
/// order, under a header naming the requested columns.
pub open spec fn table_select_model(
    tm: TableModel,
    cols: Seq<Seq<char>>,
    cond: Option<Seq<crate::where_parsing::ClauseModel>>,
) -> Result<SelectModel, ErrModel> {
    if !(forall|i: int| 0 <= i < cols.len() ==> assoc_lookup(tm.structure, #[trigger] cols[i])
        is Some) {
        Err(ErrModel::InvalidFieldName)
    } else {
        match select_rows_model(tm.records, 0, cols, cond) {
            Err(e) => Err(e),
            Ok(rows) => Ok(SelectModel { header: cols, rows }),
        }
    }
}

/// A selection result at the model level.
pub struct SelectModel {
    pub header: Seq<Seq<char>>,
    pub rows: Seq<Seq<ValueModel>>,
}

/// What a SELECT hands back for display: the requested column names and one
/// row of values per surviving record, in key order.
#[derive(Debug)]
pub struct SelectOutput {
    pub header: Vec<String>,
    pub rows: Vec<Vec<Value>>,
}

impl View for SelectOutput {
    type V = SelectModel;

    open spec fn view(&self) -> SelectModel {
        SelectModel {
            header: self.header@.map_values(|s: String| s@),
            rows: self.rows@.map_values(|r: Vec<Value>| r@.map_values(|v: Value| v@)),
        }
    }
}

/// A table: schema, designated key column, and records in ascending key order.
#[derive(Debug)]
pub struct Table<K> {
    key_name: String,
    structure: StrKeyMap<ValueType>,
    records: Vec<(K, Record)>,
}

impl<K: DatabaseKey> View for Table<K> {
    type V = TableModel;

    closed spec fn view(&self) -> TableModel {
        TableModel {
            key_name: self.key_name@,
            structure: self.structure@,
            records: self.records@.map_values(|p: (K, Record)| (p.0.model(), p.1@)),
        }
    }
}

/// The table invariant at the model level: unique schema columns, the key
/// column in the schema with a type this key kind accepts, records sorted
/// strictly by key with the stored key extracted from the record's key
/// column, and every record shaped by the schema.
pub open spec fn table_wf<K: DatabaseKey>(tm: TableModel) -> bool {
    &&& assoc_wf(tm.structure)
    &&& (assoc_lookup(tm.structure, tm.key_name) matches Some(t) && K::type_ok(t))
    &&& tm.sorted()
    &&& tm.keys_distinct()
    &&& forall|i: int|
        0 <= i < tm.records.len() ==> record_matches_schema(
            (#[trigger] tm.records[i]).1,
            tm.structure,
        )
    &&& forall|i: int|
        0 <= i < tm.records.len() ==> (assoc_lookup((#[trigger] tm.records[i]).1, tm.key_name)
            matches Some(v) && K::from_value_model(v) == Some(tm.records[i].0))
}

/// Inserting a fresh record at its sorted position preserves the invariant.
proof fn lemma_insert_keeps_wf<K: DatabaseKey>(
    tm: TableModel,
    km: KeyModel,
    rec: RecordModel,
    idx: int,
)
    requires
        table_wf::<K>(tm),
        0 <= idx <= tm.records.len(),
        forall|p: int| 0 <= p < idx ==> key_lt((#[trigger] tm.records[p]).0, km),
        idx < tm.records.len() ==> key_lt(km, tm.records[idx].0),
        record_matches_schema(rec, tm.structure),
        assoc_lookup(rec, tm.key_name) matches Some(v) && K::from_value_model(v) == Some(km),
    ensures
        table_wf::<K>(
            TableModel {
                key_name: tm.key_name,
                structure: tm.structure,
                records: tm.records.take(idx) + seq![(km, rec)] + tm.records.skip(idx),
            },
        ),
{
    let tm2 = TableModel {
        key_name: tm.key_name,
        structure: tm.structure,
        records: tm.records.take(idx) + seq![(km, rec)] + tm.records.skip(idx),
    };
    let rs = tm2.records;
    assert(rs.len() == tm.records.len() + 1);
    assert forall|p: int| 0 <= p < idx implies #[trigger] rs[p] == tm.records[p] by {
        assert(rs[p] == tm.records.take(idx)[p]);
    }
    assert(rs[idx] == (km, rec));
    assert forall|p: int| idx < p < rs.len() implies #[trigger] rs[p] == tm.records[p - 1] by {
        assert(rs[p] == tm.records.skip(idx)[p - idx - 1]);
    }
    assert(tm2.sorted()) by {
        assert forall|p: int| 0 <= p && p + 1 < rs.len() implies key_lt(
            (#[trigger] rs[p]).0,
            rs[p + 1].0,
        ) by {
            if p + 1 < idx {
                assert(rs[p] == tm.records[p] && rs[p + 1] == tm.records[p + 1]);
            } else if p + 1 == idx {
                assert(rs[p] == tm.records[p] && rs[p + 1] == (km, rec));
                assert(key_lt(tm.records[p].0, km));
            } else if p == idx {
                assert(rs[p] == (km, rec) && rs[p + 1] == tm.records[p]);
            } else {
                assert(rs[p] == tm.records[p - 1] && rs[p + 1] == tm.records[p]);
            }
        }
    }
    lemma_sorted_distinct(tm2);
}

/// Removing a record keeps the invariant.
proof fn lemma_remove_keeps_wf<K: DatabaseKey>(tm: TableModel, idx: int)
    requires
        table_wf::<K>(tm),
        0 <= idx < tm.records.len(),
    ensures
        table_wf::<K>(
            TableModel {
                key_name: tm.key_name,
                structure: tm.structure,
                records: tm.records.take(idx) + tm.records.skip(idx + 1),
            },
        ),
{
    let tm2 = TableModel {
        key_name: tm.key_name,
        structure: tm.structure,
        records: tm.records.take(idx) + tm.records.skip(idx + 1),
    };
    let rs = tm2.records;
    assert(rs.len() + 1 == tm.records.len());
    assert forall|p: int| 0 <= p < idx implies #[trigger] rs[p] == tm.records[p] by {
        assert(rs[p] == tm.records.take(idx)[p]);
    }
    assert forall|p: int| idx <= p < rs.len() implies #[trigger] rs[p] == tm.records[p + 1] by {
        assert(rs[p] == tm.records.skip(idx + 1)[p - idx]);
    }
    assert(tm2.sorted()) by {
        assert forall|p: int| 0 <= p && p + 1 < rs.len() implies key_lt(
            (#[trigger] rs[p]).0,
            rs[p + 1].0,
        ) by {
            if p + 1 < idx {
                assert(rs[p] == tm.records[p] && rs[p + 1] == tm.records[p + 1]);
            } else if p + 1 == idx {
                assert(rs[p] == tm.records[p] && rs[p + 1] == tm.records[p + 2]);
                lemma_key_lt_trans(tm.records[p].0, tm.records[p + 1].0, tm.records[p + 2].0);
            } else {
                assert(rs[p] == tm.records[p + 1] && rs[p + 1] == tm.records[p + 2]);
            }
        }
    }
    lemma_sorted_distinct(tm2);
}

impl<K: DatabaseKey> Table<K> {
    /// The table invariant.
    pub open spec fn wf(&self) -> bool {
        table_wf::<K>(self@)
    }

    /// Build an empty table.
    pub fn new_table(key_name: String, structure: StrKeyMap<ValueType>) -> (r: Table<K>)
        requires
            structure.wf(),
            assoc_lookup(structure@, key_name@) matches Some(t) && K::type_ok(t),
        ensures
            r.wf(),
            r@.key_name == key_name@,
            r@.structure == structure@,
            r@.records == Seq::<(KeyModel, RecordModel)>::empty(),
    {
        let r = Table { key_name, structure, records: Vec::new() };
        proof {
            assert(r@.records =~= Seq::<(KeyModel, RecordModel)>::empty());
        }
        r
    }

    pub fn get_type_for_name(&self, name: &str) -> (r: Option<&ValueType>)
        ensures
            match r {
                Some(t) => assoc_lookup(self@.structure, name@) == Some(*t),
                None => assoc_lookup(self@.structure, name@) is None,
            },
    {
        self.structure.get(name)
    }

    pub fn get_structure(&self) -> (r: &StrKeyMap<ValueType>)
        ensures
            r@ == self@.structure,
    {
        &self.structure
    }

    pub fn get_all_columns(&self) -> (r: Vec<String>)
        ensures
            r@.map_values(|s: String| s@) == assoc_keys(self@.structure),
    {
        self.structure.keys()
    }

    /// How many records the table holds.
    pub fn record_count(&self) -> (r: usize)
        ensures
            r == self@.records.len(),
    {
        self.records.len()
    }

    /// Insert one value map as a record, at its place in key order.
    pub fn insert_values(&mut self, values: StrKeyMap<Value>) -> (r: Result<(), MyDatabaseError>)
        requires
            old(self).wf(),
        ensures
            final(self).wf(),
            final(self)@.key_name == old(self)@.key_name,
            final(self)@.structure == old(self)@.structure,
            match r {
                Ok(()) => table_insert_model::<K>(old(self)@, values@) == Ok::<
                    TableModel,
                    ErrModel,
                >(final(self)@),
                Err(e) => table_insert_model::<K>(old(self)@, values@) == Err::<
                    TableModel,
                    ErrModel,
                >(e@) && final(self)@ == old(self)@,
            },
    {
        let ghost tm = self@;
        let ghost rec = values@;
        // the value map's columns must be the schema's, with matching types
        let vn = values.len();
        let mut i: usize = 0;
        while i < vn
            invariant
                0 <= i <= vn,
                vn == values@.len(),
                rec == values@,
                forall|j: int|
                    0 <= j < i ==> (assoc_lookup(self@.structure, (#[trigger] values@[j]).0)
                        matches Some(t) && has_type(values@[j].1, t)),
                self@ == tm,
                tm == old(self)@,
                old(self).wf(),
                *self == *old(self),
            decreases vn - i,
        {
            let key = values.key_at(i);
            match self.structure.get(key.as_str()) {
                Some(t) => {
                    if !value_matches_type(values.val_at(i), t) {
                        return Err(MyDatabaseError::KeysMismatch);
                    }
                },
                None => {
                    return Err(MyDatabaseError::KeysMismatch);
                },
            }
            i += 1;
        }
        let sn = self.structure.len();
        let mut j: usize = 0;
        while j < sn
            invariant
                0 <= j <= sn,
                sn == self@.structure.len(),
                rec == values@,
                forall|p: int|
                    0 <= p < j ==> assoc_lookup(values@, (#[trigger] self@.structure[p]).0)
                        is Some,
                self@ == tm,
                tm == old(self)@,
                old(self).wf(),
                *self == *old(self),
            decreases sn - j,
        {
            let col = self.structure.key_at(j);
            if !values.contains_key(col.as_str()) {
                return Err(MyDatabaseError::KeysMismatch);
            }
            j += 1;
        }
        // the record must be a well-formed map itself
        if !values_wf_check(&values) {
            return Err(MyDatabaseError::KeysMismatch);
        }
        proof {
            assert(record_matches_schema(rec, tm.structure));
        }
        // extract the key from the key column
        let key_value = match values.get(self.key_name.as_str()) {
            Some(v) => v,
            None => {
                proof {
                    lemma_assoc_lookup_at(tm.structure, 0);
                }
                return Err(MyDatabaseError::KeysMismatch);
            },
        };
        let key = match K::get_from_value(key_value) {
            Some(k) => k,
            None => {
                return Err(MyDatabaseError::KeysMismatch);
            },
        };
        // the key must be fresh
        let rn = self.records.len();
        let mut q: usize = 0;
        while q < rn
            invariant
                0 <= q <= rn,
                rn == self.records@.len(),
                rn == self@.records.len(),
                self@ == tm,
                tm == old(self)@,
                old(self).wf(),
                *self == *old(self),
                rec == values@,
                record_matches_schema(rec, tm.structure),
                assoc_lookup(rec, tm.key_name) is Some,
                K::from_value_model(assoc_lookup(rec, tm.key_name)->Some_0) == Some(key.model()),
                forall|p: int| 0 <= p < q ==> (#[trigger] self@.records[p]).0 != key.model(),
            decreases rn - q,
        {
            proof {
                assert(self@.records[q as int] == (
                    self.records@[q as int].0.model(),
                    self.records@[q as int].1@,
                ));
            }
            if self.records[q].0.equals(&key) {
                proof {
                    assert(tm.contains_key(key.model()));
                }
                return Err(MyDatabaseError::RecordAlreadyExists);
            }
            q += 1;
        }
        proof {
            assert(!tm.contains_key(key.model()));
        }
        // find the sorted position
        let mut idx: usize = 0;
        while idx < rn && self.records[idx].0.less_than(&key)
            invariant
                0 <= idx <= rn,
                rn == self.records@.len(),
                rn == self@.records.len(),
                self@ == tm,
                *self == *old(self),
                forall|p: int| 0 <= p < idx ==> key_lt((#[trigger] self@.records[p]).0, key.model()),
            decreases rn - idx,
        {
            proof {
                assert(self@.records[idx as int] == (
                    self.records@[idx as int].0.model(),
                    self.records@[idx as int].1@,
                ));
            }
            idx += 1;
        }
        proof {
            assert(forall|p: int|
                0 <= p < idx ==> key_lt((#[trigger] tm.records[p]).0, key.model()));
            if idx < rn {
                assert(self@.records[idx as int] == (
                    self.records@[idx as int].0.model(),
                    self.records@[idx as int].1@,
                ));
                let a = self.records@[idx as int].0;
                K::lemma_models_comparable(&a, &key);
                lemma_key_lt_irrefl(key.model());
                assert(key_lt(key.model(), tm.records[idx as int].0));
            }
        }
        let ghost km = key.model();
        let record = Record::from_values(values);
        let ghost prev = self.records@.map_values(|p: (K, Record)| (p.0.model(), p.1@));
        proof {
            assert(prev =~= tm.records);
        }
        self.records.insert(idx, (key, record));
        proof {
            assert(self@.records =~= prev.take(idx as int) + seq![(km, rec)] + prev.skip(
                idx as int,
            ));
            assert(self@.records =~= tm.records.take(idx as int) + seq![(km, rec)]
                + tm.records.skip(idx as int));
            lemma_insert_sorted_split(tm.records, km, rec, idx as int);
            assert(self@.records == insert_sorted(tm.records, km, rec));
            assert(table_insert_model::<K>(tm, rec) == Ok::<TableModel, ErrModel>(self@));
            lemma_insert_keeps_wf::<K>(tm, km, rec, idx as int);
            assert(self@ == TableModel {
                key_name: tm.key_name,
                structure: tm.structure,
                records: tm.records.take(idx as int) + seq![(km, rec)] + tm.records.skip(
                    idx as int,
                ),
            });
        }
        Ok(())
    }

    /// Delete the record whose key the text denotes.
    pub fn delete_key(&mut self, key_as_string: String) -> (r: Result<(), MyDatabaseError>)
        requires
            old(self).wf(),
        ensures
            final(self).wf(),
            final(self)@.key_name == old(self)@.key_name,
            final(self)@.structure == old(self)@.structure,
            match r {
                Ok(()) => table_delete_model::<K>(old(self)@, key_as_string@) == Ok::<
                    TableModel,
                    ErrModel,
                >(final(self)@),
                Err(e) => table_delete_model::<K>(old(self)@, key_as_string@) == Err::<
                    TableModel,
                    ErrModel,
                >(e@) && final(self)@ == old(self)@,
            },
    {
        let ghost tm = self@;
        let key = match K::get_from_string(key_as_string) {
            Ok(k) => k,
            Err(e) => {
                return Err(e);
            },
        };
        let rn = self.records.len();
        let mut idx: usize = 0;
        while idx < rn
            invariant
                0 <= idx <= rn,
                rn == self.records@.len(),
                rn == self@.records.len(),
                self@ == tm,
                tm == old(self)@,
                old(self).wf(),
                *self == *old(self),
                K::from_text_model(key_as_string@) == Some(key.model()),
                forall|p: int| 0 <= p < idx ==> (#[trigger] self@.records[p]).0 != key.model(),
            decreases rn - idx,
        {
            proof {
                assert(self@.records[idx as int] == (
                    self.records@[idx as int].0.model(),
                    self.records@[idx as int].1@,
                ));
            }
            if self.records[idx].0.equals(&key) {
                let ghost km = key.model();
                let ghost prev = self.records@.map_values(|p: (K, Record)| (p.0.model(), p.1@));
                proof {
                    assert(prev =~= tm.records);
                }
                let _ = self.records.remove(idx);
                proof {
                    assert(tm.contains_key(km));
                    assert(self@.records =~= prev.take(idx as int) + prev.skip(idx + 1));
                    assert(self@.records =~= tm.records.take(idx as int) + tm.records.skip(
                        idx + 1,
                    ));
                    lemma_remove_key_split(tm.records, km, idx as int);
                    assert(self@.records == remove_key(tm.records, km));
                    assert(table_delete_model::<K>(tm, key_as_string@) == Ok::<
                        TableModel,
                        ErrModel,
                    >(self@));
                    lemma_remove_keeps_wf::<K>(tm, idx as int);
                    assert(self@ == TableModel {
                        key_name: tm.key_name,
                        structure: tm.structure,
                        records: tm.records.take(idx as int) + tm.records.skip(idx + 1),
                    });
                }
                return Ok(());
            }
            idx += 1;
        }
        proof {
            assert(!tm.contains_key(key.model()));
        }
        Err(MyDatabaseError::KeyNotFound)
    }

    /// Select the requested columns of every record the optional clause
    /// accepts, in ascending key order.
    pub fn select_and_display(
        &self,
        values_to_select: &Vec<String>,
        condition: &Option<WhereClause>,
    ) -> (r: Result<SelectOutput, MyDatabaseError>)
        ensures
            ({
                let cols = values_to_select@.map_values(|s: String| s@);
                let cond = match condition {
                    Some(c) => Some(c@),
                    None => None,
                };
                match r {
                    Ok(out) => table_select_model(self@, cols, cond) == Ok::<
                        SelectModel,
                        ErrModel,
                    >(out@),
                    Err(e) => table_select_model(self@, cols, cond) == Err::<
                        SelectModel,
                        ErrModel,
                    >(e@),
                }
            }),
    {
        let ghost cols = values_to_select@.map_values(|s: String| s@);
        let ghost condm: Option<Seq<crate::where_parsing::ClauseModel>> = match condition {
            Some(c) => Some(c@),
            None => None,
        };
        let cn = values_to_select.len();
        let mut i: usize = 0;
        while i < cn
            invariant
                0 <= i <= cn,
                cn == values_to_select@.len(),
                cols == values_to_select@.map_values(|s: String| s@),
                forall|j: int|
                    0 <= j < i ==> assoc_lookup(self@.structure, #[trigger] cols[j]) is Some,
            decreases cn - i,
        {
            if !self.structure.contains_key(values_to_select[i].as_str()) {
                proof {
                    assert(assoc_lookup(self@.structure, cols[i as int]) is None);
                }
                return Err(MyDatabaseError::InvalidFieldName);
            }
            i += 1;
        }
        // build the header
        let mut header: Vec<String> = Vec::new();
        let mut h: usize = 0;
        while h < cn
            invariant
                0 <= h <= cn,
                cn == values_to_select@.len(),
                header@.len() == h,
                forall|j: int| 0 <= j < h ==> (#[trigger] header@[j])@ == values_to_select@[j]@,
            decreases cn - h,
        {
            header.push(values_to_select[h].clone());
            h += 1;
        }
        // walk the records in key order
        let rn = self.records.len();
        let mut rows: Vec<Vec<Value>> = Vec::new();
        let mut t: usize = 0;
        proof {
            assert(rows@.map_values(|r: Vec<Value>| r@.map_values(|v: Value| v@)) =~= Seq::<
                Seq<ValueModel>,
            >::empty());
        }
        while t < rn
            invariant
                0 <= t <= rn,
                rn == self.records@.len(),
                rn == self@.records.len(),
                cols == values_to_select@.map_values(|s: String| s@),
                cn == values_to_select@.len(),
                condm == (match condition {
                    Some(c) => Some(c@),
                    None => None::<Seq<crate::where_parsing::ClauseModel>>,
                }),
                forall|j: int|
                    0 <= j < cols.len() ==> assoc_lookup(self@.structure, #[trigger] cols[j])
                        is Some,
                select_rows_model(self@.records, 0, cols, condm) matches Ok(all) ==> (
                select_rows_model(self@.records, t as int, cols, condm) matches Ok(rest) && all
                    == rows@.map_values(|r: Vec<Value>| r@.map_values(|v: Value| v@)) + rest),
                select_rows_model(self@.records, t as int, cols, condm) is Err
                    ==> select_rows_model(self@.records, 0, cols, condm) == select_rows_model(
                    self@.records,
                    t as int,
                    cols,
                    condm,
                ),
                (select_rows_model(self@.records, 0, cols, condm) is Ok) == (select_rows_model(
                    self@.records,
                    t as int,
                    cols,
                    condm,
                ) is Ok),
            decreases rn - t,
        {
            let ghost before = rows@.map_values(|r: Vec<Value>| r@.map_values(|v: Value| v@));
            proof {
                assert(self@.records[t as int] == (
                    self.records@[t as int].0.model(),
                    self.records@[t as int].1@,
                ));
            }
            let record = &self.records[t].1;
            let mut keep = true;
            match condition {
                Some(cond) => {
                    match cond.evaluate_for_record(record) {
                        Ok(b) => {
                            keep = b;
                        },
                        Err(e) => {
                            return Err(e);
                        },
                    }
                },
                None => {},
            }
            if keep {
                proof {
                    match condm {
                        Some(cc) => {
                            assert(evaluate_model(cc, self@.records[t as int].1) == Ok::<
                                bool,
                                ErrModel,
                            >(true));
                        },
                        None => {},
                    }
                }
                // project the requested columns of this record
                let mut row: Vec<Value> = Vec::new();
                let mut c: usize = 0;
                proof {
                    assert(row@.map_values(|v: Value| v@) =~= Seq::<ValueModel>::empty());
                }
                while c < cn
                    invariant
                        0 <= c <= cn,
                        cn == values_to_select@.len(),
                        cols == values_to_select@.map_values(|s: String| s@),
                        t < rn,
                        rn == self.records@.len(),
                        rn == self@.records.len(),
                        self@.records[t as int].1 == self.records@[t as int].1@,
                        condm == (match condition {
                            Some(cc) => Some(cc@),
                            None => None::<Seq<crate::where_parsing::ClauseModel>>,
                        }),
                        forall|j: int|
                            0 <= j < cols.len() ==> assoc_lookup(
                                self@.structure,
                                #[trigger] cols[j],
                            ) is Some,
                        match condm {
                            Some(cc) => evaluate_model(cc, self@.records[t as int].1) == Ok::<
                                bool,
                                ErrModel,
                            >(true),
                            None => true,
                        },
                        select_rows_model(self@.records, t as int, cols, condm) is Err
                            ==> select_rows_model(self@.records, 0, cols, condm)
                            == select_rows_model(self@.records, t as int, cols, condm),
                        (select_rows_model(self@.records, 0, cols, condm) is Ok) == (
                        select_rows_model(self@.records, t as int, cols, condm) is Ok),
                        project_model(self@.records[t as int].1, cols, 0) matches Ok(allp) ==> (
                        project_model(self@.records[t as int].1, cols, c as int) matches Ok(restp)
                            && allp == row@.map_values(|v: Value| v@) + restp),
                        project_model(self@.records[t as int].1, cols, c as int) is Err
                            ==> project_model(self@.records[t as int].1, cols, 0) == project_model(
                            self@.records[t as int].1,
                            cols,
                            c as int,
                        ),
                        (project_model(self@.records[t as int].1, cols, 0) is Ok) == (
                        project_model(self@.records[t as int].1, cols, c as int) is Ok),
                    decreases cn - c,
                {
                    let ghost rowbefore = row@.map_values(|v: Value| v@);
                    match self.records[t].1.get_value_for_column(values_to_select[c].as_str()) {
                        Some(v) => {
                            row.push(v.dup());
                            proof {
                                assert(row@.map_values(|v: Value| v@) =~= rowbefore.push(
                                    assoc_lookup(self@.records[t as int].1, cols[c as int])->Some_0,
                                ));
                                if project_model(self@.records[t as int].1, cols, 0) is Ok {
                                    let allp = project_model(
                                        self@.records[t as int].1,
                                        cols,
                                        0,
                                    )->Ok_0;
                                    let rest1 = project_model(
                                        self@.records[t as int].1,
                                        cols,
                                        c as int,
                                    )->Ok_0;
                                    let rest2 = project_model(
                                        self@.records[t as int].1,
                                        cols,
                                        c + 1,
                                    )->Ok_0;
                                    assert(rest1 == seq![
                                        assoc_lookup(
                                            self@.records[t as int].1,
                                            cols[c as int],
                                        )->Some_0,
                                    ] + rest2);
                                    assert(rowbefore + rest1 =~= row@.map_values(|v: Value| v@)
                                        + rest2);
                                }
                            }
                        },
                        None => {
                            proof {
                                assert(project_model(self@.records[t as int].1, cols, c as int)
                                    == Err::<Seq<ValueModel>, ErrModel>(ErrModel::InvalidFieldName));
                                assert(select_rows_model(self@.records, t as int, cols, condm)
                                    == Err::<Seq<Seq<ValueModel>>, ErrModel>(
                                    ErrModel::InvalidFieldName,
                                ));
                            }
                            return Err(MyDatabaseError::InvalidFieldName);
                        },
                    }
                    c += 1;
                }
                let ghost rowm = row@.map_values(|v: Value| v@);
                proof {
                    assert(project_model(self@.records[t as int].1, cols, cn as int) == Ok::<
                        Seq<ValueModel>,
                        ErrModel,
                    >(Seq::empty()));
                    assert(project_model(self@.records[t as int].1, cols, 0) is Ok ==> (
                    project_model(self@.records[t as int].1, cols, 0)->Ok_0 =~= rowm));
                }
                rows.push(row);
                proof {
                    assert(rows@.map_values(|r: Vec<Value>| r@.map_values(|v: Value| v@))
                        =~= before.push(rowm));
                    assert(project_model(self@.records[t as int].1, cols, 0) == Ok::<
                        Seq<ValueModel>,
                        ErrModel,
                    >(rowm));
                    if select_rows_model(self@.records, 0, cols, condm) is Ok {
                        let all = select_rows_model(self@.records, 0, cols, condm)->Ok_0;
                        let rest1 = select_rows_model(self@.records, t as int, cols, condm)->Ok_0;
                        let rest2 = select_rows_model(self@.records, t + 1, cols, condm)->Ok_0;
                        assert(rest1 == seq![rowm] + rest2);
                        assert(before + rest1 =~= before.push(rowm) + rest2);
                    }
                    if select_rows_model(self@.records, t + 1, cols, condm) is Err {
                        assert(select_rows_model(self@.records, t as int, cols, condm)
                            == select_rows_model(self@.records, t + 1, cols, condm));
                    }
                }
            }
            t += 1;
        }
        proof {
            assert(select_rows_model(self@.records, rn as int, cols, condm) == Ok::<
                Seq<Seq<ValueModel>>,
                ErrModel,
            >(Seq::empty()));
            let all = select_rows_model(self@.records, 0, cols, condm)->Ok_0;
            assert(all =~= rows@.map_values(|r: Vec<Value>| r@.map_values(|v: Value| v@)));
        }
        let out = SelectOutput { header, rows };
        proof {
            assert(out@.header =~= cols);
            assert(table_select_model(self@, cols, condm) == Ok::<SelectModel, ErrModel>(out@));
        }
        Ok(out)
    }
}

/// Check that a value map has pairwise-distinct keys.
fn values_wf_check(values: &StrKeyMap<Value>) -> (r: bool)
    ensures
        r == assoc_wf(values@),
{
    let n = values.len();
    let mut i: usize = 0;
    while i < n
        invariant
            0 <= i <= n,
            n == values@.len(),
            forall|p: int, q: int|
                0 <= p < q < values@.len() && p < i ==> (#[trigger] values@[p]).0 != (
                #[trigger] values@[q]).0,
        decreases n - i,
    {
        let mut j: usize = i + 1;
        while j < n
            invariant
                i < j <= n,
                i < n,
                n == values@.len(),
                forall|q: int|
                    i < q < j ==> (#[trigger] values@[q]).0 != values@[i as int].0,
            decreases n - j,
        {
            if str_eq(values.key_at(i).as_str(), values.key_at(j).as_str()) {
                return false;
            }
            j += 1;
        }
        i += 1;
    }
    true
}

/// A key strictly below another is distinct from it.
proof fn lemma_key_lt_asym(a: KeyModel, b: KeyModel)
    requires
        key_lt(a, b),
    ensures
        a != b,
{
    crate::values::lemma_key_lt_irrefl(b);
}

/// Strictly sorted records have pairwise-distinct keys.
proof fn lemma_sorted_distinct(tm: TableModel)
    requires
        tm.sorted(),
    ensures
        tm.keys_distinct(),
{
    assert forall|i: int, j: int| 0 <= i < j < tm.records.len() implies (
    #[trigger] tm.records[i]).0 != (#[trigger] tm.records[j]).0 by {
        lemma_sorted_chain(tm, i, j);
        lemma_key_lt_asym(tm.records[i].0, tm.records[j].0);
    }
}

proof fn lemma_sorted_chain(tm: TableModel, i: int, j: int)
    requires
        tm.sorted(),
        0 <= i < j < tm.records.len(),
    ensures
        key_lt(tm.records[i].0, tm.records[j].0),
    decreases j - i,
{
    if j == i + 1 {
    } else {
        lemma_sorted_chain(tm, i, j - 1);
        lemma_key_lt_trans(tm.records[i].0, tm.records[j - 1].0, tm.records[j].0);
    }
}

proof fn lemma_insert_sorted_split(
    records: Seq<(KeyModel, RecordModel)>,
    k: KeyModel,
    rec: RecordModel,
    idx: int,
)
    requires
        0 <= idx <= records.len(),
        forall|p: int| 0 <= p < idx ==> key_lt((#[trigger] records[p]).0, k),
        idx < records.len() ==> !key_lt(records[idx].0, k),
    ensures
        insert_sorted(records, k, rec) == records.take(idx) + seq![(k, rec)] + records.skip(idx),
    decreases idx,
{
    if idx == 0 {
        if records.len() == 0 {
            assert(insert_sorted(records, k, rec) =~= records.take(0) + seq![(k, rec)]
                + records.skip(0));
        } else {
            assert(insert_sorted(records, k, rec) =~= records.take(0) + seq![(k, rec)]
                + records.skip(0));
        }
    } else {
        assert(key_lt(records[0].0, k));
        lemma_insert_sorted_split(records.drop_first(), k, rec, idx - 1);
        assert(records.drop_first().take(idx - 1) =~= records.take(idx).drop_first());
        assert(records.drop_first().skip(idx - 1) =~= records.skip(idx));
        assert(insert_sorted(records, k, rec) =~= records.take(idx) + seq![(k, rec)]
            + records.skip(idx));
    }
}

proof fn lemma_remove_key_split(records: Seq<(KeyModel, RecordModel)>, k: KeyModel, idx: int)
    requires
        0 <= idx < records.len(),
        forall|p: int| 0 <= p < idx ==> (#[trigger] records[p]).0 != k,
        records[idx].0 == k,
    ensures
        remove_key(records, k) == records.take(idx) + records.skip(idx + 1),
    decreases idx,
{
    if idx == 0 {
        assert(remove_key(records, k) =~= records.take(0) + records.skip(1));
    } else {
        lemma_remove_key_split(records.drop_first(), k, idx - 1);
        assert(records.drop_first().take(idx - 1) =~= records.take(idx).drop_first());
        assert(records.drop_first().skip(idx) =~= records.skip(idx + 1));
        assert(remove_key(records, k) =~= records.take(idx) + records.skip(idx + 1));
    }
}

/// Which of the two key kinds a database was created with.
pub enum KeyKind {
    IntKeys,
    TextKeys,
}

/// A whole database at the model level: the key kind fixed at startup and the
/// tables by name.
pub struct DbModel {
    pub kind: KeyKind,
    pub tables: Seq<(Seq<char>, TableModel)>,
}

/// What creating a table does: the key column must be one of the fields with
/// a type the key kind accepts, and the name must be free; then an empty
/// table is added.
pub open spec fn create_table_model<K: DatabaseKey>(
    tables: Seq<(Seq<char>, TableModel)>,
    name: Seq<char>,
    key_name: Seq<char>,
    fields: Seq<(Seq<char>, ValueType)>,
) -> Result<Seq<(Seq<char>, TableModel)>, ErrModel> {
    match assoc_lookup(fields, key_name) {
        None => Err(ErrModel::InvalidCommandFormat("CREATE. Key was not in fields"@)),
        Some(t) => if !K::type_ok(t) {
            Err(ErrModel::InvalidKeyType)
        } else if assoc_lookup(tables, name) is Some {
            Err(ErrModel::TableAlreadyExists(name))
        } else {
            Ok(
                tables.push(
                    (
                        name,
                        TableModel {
                            key_name,
                            structure: fields,
                            records: Seq::empty(),
                        },
                    ),
                ),
            )
        },
    }
}

/// Lift a table-level step to the named table of a database.
pub open spec fn tables_step_model(
    tables: Seq<(Seq<char>, TableModel)>,
    name: Seq<char>,
    step: Result<TableModel, ErrModel>,
) -> Result<Seq<(Seq<char>, TableModel)>, ErrModel> {
    match assoc_lookup(tables, name) {
        None => Err(ErrModel::TableNotFound(name)),
        Some(_) => match step {
            Err(e) => Err(e),
            Ok(tm2) => Ok(assoc_set(tables, name, tm2)),
        },
    }
}

/// A database: all tables share one key type.
#[derive(Debug)]
pub struct Database<K: DatabaseKey> {
    tables: StrKeyMap<Table<K>>,
}

impl<K: DatabaseKey> View for Database<K> {
    type V = Seq<(Seq<char>, TableModel)>;

    closed spec fn view(&self) -> Seq<(Seq<char>, TableModel)> {
        self.tables@
    }
}

impl<K: DatabaseKey> Database<K> {
    /// Table names are distinct and every table keeps its invariant.
    pub open spec fn wf(&self) -> bool {
        &&& assoc_wf(self@)
        &&& forall|i: int| 0 <= i < self@.len() ==> table_wf::<K>((#[trigger] self@[i]).1)
    }

    /// An empty database.
    pub fn new() -> (r: Database<K>)
        ensures
            r@ == Seq::<(Seq<char>, TableModel)>::empty(),
            r.wf(),
    {
        Database { tables: StrKeyMap::new() }
    }

    /// Add an empty table under a fresh name.
    pub fn create_table(
        &mut self,
        name: &str,
        key_name: &str,
        fields: StrKeyMap<ValueType>,
    ) -> (r: Result<(), MyDatabaseError>)
        requires
            old(self).wf(),
            fields.wf(),
        ensures
            final(self).wf(),
            match r {
                Ok(()) => create_table_model::<K>(old(self)@, name@, key_name@, fields@) == Ok::<
                    Seq<(Seq<char>, TableModel)>,
                    ErrModel,
                >(final(self)@),
                Err(e) => create_table_model::<K>(old(self)@, name@, key_name@, fields@) == Err::<
                    Seq<(Seq<char>, TableModel)>,
                    ErrModel,
                >(e@) && final(self)@ == old(self)@,
            },
    {
        let key_type = match fields.get(key_name) {
            Some(t) => t,
            None => {
                return Err(MyDatabaseError::InvalidCommandFormat(String::from_str(
                    "CREATE. Key was not in fields",
                )));
            },
        };
        if !K::validate_value_type(key_type) {
            return Err(MyDatabaseError::InvalidKeyType);
        }
        if self.tables.contains_key(name) {
            return Err(MyDatabaseError::TableAlreadyExists(name.to_owned()));
        }
        let ghost prev = self@;
        let table: Table<K> = Table::new_table(key_name.to_owned(), fields);
        let inserted = self.tables.try_insert(name.to_owned(), table);
        proof {
            assert(inserted);
            assert(self@ == prev.push((name@, TableModel {
                key_name: key_name@,
                structure: fields@,
                records: Seq::empty(),
            })));
            assert(self.wf()) by {
                assert(forall|i: int| 0 <= i < prev.len() ==> #[trigger] self@[i] == prev[i]);
                assert(table_wf::<K>(self@[prev.len() as int].1));
            }
        }
        Ok(())
    }

    /// Shared access to a table by name.
    pub fn get_table(&self, name: &str) -> (r: Option<&Table<K>>)
        ensures
            match r {
                Some(t) => assoc_lookup(self@, name@) == Some(t@),
                None => assoc_lookup(self@, name@) is None,
            },
    {
        self.tables.get(name)
    }

    /// Insert a value map into the named table.
    pub fn insert_values(&mut self, table_name: &str, values: StrKeyMap<Value>) -> (r: Result<
        (),
        MyDatabaseError,
    >)
        requires
            old(self).wf(),
        ensures
            final(self).wf(),
            match r {
                Ok(()) => tables_step_model(
                    old(self)@,
                    table_name@,
                    table_insert_model::<K>(assoc_lookup(old(self)@, table_name@)->Some_0, values@),
                ) == Ok::<Seq<(Seq<char>, TableModel)>, ErrModel>(final(self)@) && assoc_lookup(
                    old(self)@,
                    table_name@,
                ) is Some,
                Err(e) => tables_step_model(
                    old(self)@,
                    table_name@,
                    match assoc_lookup(old(self)@, table_name@) {
                        Some(tm) => table_insert_model::<K>(tm, values@),
                        None => Err(ErrModel::TableNotFound(table_name@)),
                    },
                ) == Err::<Seq<(Seq<char>, TableModel)>, ErrModel>(e@) && final(self)@ == old(
                    self,
                )@,
            },
    {
        let ghost prev = self@;
        let i = match self.tables.index_of(table_name) {
            Some(i) => i,
            None => {
                return Err(MyDatabaseError::TableNotFound(table_name.to_owned()));
            },
        };
        proof {
            lemma_assoc_lookup_at(prev, i as int);
        }
        let (nm, mut table) = self.tables.take_at(i);
        let ghost tm = table@;
        let res = table.insert_values(values);
        self.tables.put_at(i, nm, table);
        proof {
            assert(self@ =~= prev.remove(i as int).insert(i as int, (prev[i as int].0, table@)));
            assert(self@ =~= prev.update(i as int, (prev[i as int].0, table@)));
            assert(self.wf()) by {
                assert(forall|j: int|
                    0 <= j < self@.len() && j != i ==> #[trigger] self@[j] == prev[j]);
                assert(self@[i as int] == (prev[i as int].0, table@));
            }
            if res is Ok {
                lemma_assoc_set_is_update(prev, i as int, table@);
                assert(prev.update(i as int, (prev[i as int].0, table@)) == assoc_set(
                    prev,
                    prev[i as int].0,
                    table@,
                ));
            } else {
                assert(table@ == tm);
                assert(self@ =~= prev);
            }
        }
        res
    }

    /// Delete the record the key text denotes from the named table.
    pub fn delete_key(&mut self, table_name: &str, key_as_string: String) -> (r: Result<
        (),
        MyDatabaseError,
    >)
        requires
            old(self).wf(),
        ensures
            final(self).wf(),
            match r {
                Ok(()) => tables_step_model(
                    old(self)@,
                    table_name@,
                    table_delete_model::<K>(
                        assoc_lookup(old(self)@, table_name@)->Some_0,
                        key_as_string@,
                    ),
                ) == Ok::<Seq<(Seq<char>, TableModel)>, ErrModel>(final(self)@) && assoc_lookup(
                    old(self)@,
                    table_name@,
                ) is Some,
                Err(e) => tables_step_model(
                    old(self)@,
                    table_name@,
                    match assoc_lookup(old(self)@, table_name@) {
                        Some(tm) => table_delete_model::<K>(tm, key_as_string@),
                        None => Err(ErrModel::TableNotFound(table_name@)),
                    },
                ) == Err::<Seq<(Seq<char>, TableModel)>, ErrModel>(e@) && final(self)@ == old(
                    self,
                )@,
            },
    {
        let ghost prev = self@;
        let i = match self.tables.index_of(table_name) {
            Some(i) => i,
            None => {
                return Err(MyDatabaseError::TableNotFound(table_name.to_owned()));
            },
        };
        proof {
            lemma_assoc_lookup_at(prev, i as int);
        }
        let (nm, mut table) = self.tables.take_at(i);
        let ghost tm = table@;
        let res = table.delete_key(key_as_string);
        self.tables.put_at(i, nm, table);
        proof {
            assert(self@ =~= prev.remove(i as int).insert(i as int, (prev[i as int].0, table@)));
            assert(self@ =~= prev.update(i as int, (prev[i as int].0, table@)));
            assert(self.wf()) by {
                assert(forall|j: int|
                    0 <= j < self@.len() && j != i ==> #[trigger] self@[j] == prev[j]);
                assert(self@[i as int] == (prev[i as int].0, table@));
            }
            if res is Ok {
                lemma_assoc_set_is_update(prev, i as int, table@);
                assert(prev.update(i as int, (prev[i as int].0, table@)) == assoc_set(
                    prev,
                    prev[i as int].0,
                    table@,
                ));
            } else {
                assert(table@ == tm);
                assert(self@ =~= prev);
            }
        }
        res
    }
}

/// A transient handle into one table of an [`AnyDatabase`], used for the
/// duration of one command.
#[derive(Debug)]
pub enum AnyTableRef<'a> {
    StringKeyTable(&'a Table<String>),
    IntKeyTable(&'a Table<i64>),
}

impl<'a> View for AnyTableRef<'a> {
    type V = TableModel;

    open spec fn view(&self) -> TableModel {
        match self {
            AnyTableRef::StringKeyTable(t) => t@,
            AnyTableRef::IntKeyTable(t) => t@,
        }
    }
}

impl<'a> AnyTableRef<'a> {
    /// The type of the named column, if the schema has it.
    pub fn get_type_for_name(&self, name: &str) -> (r: Option<&ValueType>)
        ensures
            match r {
                Some(t) => assoc_lookup(self@.structure, name@) == Some(*t),
                None => assoc_lookup(self@.structure, name@) is None,
            },
    {
        match self {
            AnyTableRef::StringKeyTable(table) => table.get_type_for_name(name),
            AnyTableRef::IntKeyTable(table) => table.get_type_for_name(name),
        }
    }

    /// All column names, in schema order.
    pub fn get_all_columns(&self) -> (r: Vec<String>)
        ensures
            r@.map_values(|s: String| s@) == assoc_keys(self@.structure),
    {
        match self {
            AnyTableRef::StringKeyTable(table) => table.get_all_columns(),
            AnyTableRef::IntKeyTable(table) => table.get_all_columns(),
        }
    }

    /// The schema itself.
    pub fn get_structure(&self) -> (r: &StrKeyMap<ValueType>)
        ensures
            r@ == self@.structure,
    {
        match self {
            AnyTableRef::StringKeyTable(table) => table.get_structure(),
            AnyTableRef::IntKeyTable(table) => table.get_structure(),
        }
    }

    /// Select the requested columns of every record the clause accepts.
    pub fn select_and_display(
        &self,
        values_to_select: &Vec<String>,
        condition: &Option<WhereClause>,
    ) -> (r: Result<SelectOutput, MyDatabaseError>)
        ensures
            ({
                let cols = values_to_select@.map_values(|s: String| s@);
                let cond = match condition {
                    Some(c) => Some(c@),
                    None => None,
                };
                match r {
                    Ok(out) => table_select_model(self@, cols, cond) == Ok::<
                        SelectModel,
                        ErrModel,
                    >(out@),
                    Err(e) => table_select_model(self@, cols, cond) == Err::<
                        SelectModel,
                        ErrModel,
                    >(e@),
                }
            }),
    {
        match self {
            AnyTableRef::StringKeyTable(table) => table.select_and_display(
                values_to_select,
                condition,
            ),
            AnyTableRef::IntKeyTable(table) => table.select_and_display(values_to_select, condition),
        }
    }
}

/// The key-type-erasure layer: exactly one concrete database, keyed by 64-bit
/// integers or by strings, chosen once and fixed for the process lifetime.
#[derive(Debug)]
pub enum AnyDatabase {
    StringDatabase(Database<String>),
    IntDatabase(Database<i64>),
}

impl View for AnyDatabase {
    type V = DbModel;

    open spec fn view(&self) -> DbModel {
        match self {
            AnyDatabase::StringDatabase(db) => DbModel { kind: KeyKind::TextKeys, tables: db@ },
            AnyDatabase::IntDatabase(db) => DbModel { kind: KeyKind::IntKeys, tables: db@ },
        }
    }
}

/// What creating a table does at the erased level.
pub open spec fn db_create_table_model(
    dbm: DbModel,
    name: Seq<char>,
    key_name: Seq<char>,
    fields: Seq<(Seq<char>, ValueType)>,
) -> Result<DbModel, ErrModel> {
    let step = match dbm.kind {
        KeyKind::IntKeys => create_table_model::<i64>(dbm.tables, name, key_name, fields),
        KeyKind::TextKeys => create_table_model::<String>(dbm.tables, name, key_name, fields),
    };
    match step {
        Err(e) => Err(e),
        Ok(tables) => Ok(DbModel { kind: dbm.kind, tables }),
    }
}

/// What inserting into the named table does at the erased level.
pub open spec fn db_insert_model(dbm: DbModel, name: Seq<char>, rec: RecordModel) -> Result<
    DbModel,
    ErrModel,
> {
    let step = match assoc_lookup(dbm.tables, name) {
        None => Err(ErrModel::TableNotFound(name)),
        Some(tm) => match dbm.kind {
            KeyKind::IntKeys => table_insert_model::<i64>(tm, rec),
            KeyKind::TextKeys => table_insert_model::<String>(tm, rec),
        },
    };
    match tables_step_model(dbm.tables, name, step) {
        Err(e) => Err(e),
        Ok(tables) => Ok(DbModel { kind: dbm.kind, tables }),
    }
}

/// What deleting from the named table does at the erased level.
pub open spec fn db_delete_model(dbm: DbModel, name: Seq<char>, key_text: Seq<char>) -> Result<
    DbModel,
    ErrModel,
> {
    let step = match assoc_lookup(dbm.tables, name) {
        None => Err(ErrModel::TableNotFound(name)),
        Some(tm) => match dbm.kind {
            KeyKind::IntKeys => table_delete_model::<i64>(tm, key_text),
            KeyKind::TextKeys => table_delete_model::<String>(tm, key_text),
        },
    };
    match tables_step_model(dbm.tables, name, step) {
        Err(e) => Err(e),
        Ok(tables) => Ok(DbModel { kind: dbm.kind, tables }),
    }
}

impl AnyDatabase {
    /// Every table of the one concrete database keeps its invariant.
    pub open spec fn wf(&self) -> bool {
        match self {
            AnyDatabase::StringDatabase(db) => db.wf(),
            AnyDatabase::IntDatabase(db) => db.wf(),
        }
    }

    /// A handle to the named table.
    pub fn get_table_by_name(&self, name: &str) -> (r: Result<AnyTableRef<'_>, MyDatabaseError>)
        ensures
            match r {
                Ok(t) => assoc_lookup(self@.tables, name@) == Some(t@),
                Err(e) => assoc_lookup(self@.tables, name@) is None && e@ == ErrModel::TableNotFound(
                    name@,
                ),
            },
    {
        match self {
            AnyDatabase::StringDatabase(db) => {
                match db.get_table(name) {
                    Some(table) => Ok(AnyTableRef::StringKeyTable(table)),
                    None => Err(MyDatabaseError::TableNotFound(name.to_owned())),
                }
            },
            AnyDatabase::IntDatabase(db) => {
                match db.get_table(name) {
                    Some(table) => Ok(AnyTableRef::IntKeyTable(table)),
                    None => Err(MyDatabaseError::TableNotFound(name.to_owned())),
                }
            },
        }
    }

    /// Create a table in the one concrete database.
    pub fn create_table(&mut self, name: &str, key_name: &str, fields: StrKeyMap<ValueType>) -> (r:
        Result<(), MyDatabaseError>)
        requires
            old(self).wf(),
            fields.wf(),
        ensures
            final(self).wf(),
            final(self)@.kind == old(self)@.kind,
            match r {
                Ok(()) => db_create_table_model(old(self)@, name@, key_name@, fields@) == Ok::<
                    DbModel,
                    ErrModel,
                >(final(self)@),
                Err(e) => db_create_table_model(old(self)@, name@, key_name@, fields@) == Err::<
                    DbModel,
                    ErrModel,
                >(e@) && final(self)@ == old(self)@,
            },
    {
        match self {
            AnyDatabase::StringDatabase(db) => db.create_table(name, key_name, fields),
            AnyDatabase::IntDatabase(db) => db.create_table(name, key_name, fields),
        }
    }

    /// Insert a value map into the named table.
    pub fn insert_values(&mut self, table_name: &str, values: StrKeyMap<Value>) -> (r: Result<
        (),
        MyDatabaseError,
    >)
        requires
            old(self).wf(),
        ensures
            final(self).wf(),
            final(self)@.kind == old(self)@.kind,
            match r {
                Ok(()) => db_insert_model(old(self)@, table_name@, values@) == Ok::<
                    DbModel,
                    ErrModel,
                >(final(self)@),
                Err(e) => db_insert_model(old(self)@, table_name@, values@) == Err::<
                    DbModel,
                    ErrModel,
                >(e@) && final(self)@ == old(self)@,
            },
    {
        match self {
            AnyDatabase::StringDatabase(db) => db.insert_values(table_name, values),
            AnyDatabase::IntDatabase(db) => db.insert_values(table_name, values),
        }
    }

    /// Delete by key text from the named table.
    pub fn delete_key(&mut self, table_name: &str, key_as_string: String) -> (r: Result<
        (),
        MyDatabaseError,
    >)
        requires
            old(self).wf(),
        ensures
            final(self).wf(),
            final(self)@.kind == old(self)@.kind,
            match r {
                Ok(()) => db_delete_model(old(self)@, table_name@, key_as_string@) == Ok::<
                    DbModel,
                    ErrModel,
                >(final(self)@),
                Err(e) => db_delete_model(old(self)@, table_name@, key_as_string@) == Err::<
                    DbModel,
                    ErrModel,
                >(e@) && final(self)@ == old(self)@,
            },
    {
        match self {
            AnyDatabase::StringDatabase(db) => db.delete_key(table_name, key_as_string),
            AnyDatabase::IntDatabase(db) => db.delete_key(table_name, key_as_string),
        }
    }
}


} // verus!
