//! The laws the store obeys, stated over the models that the executable
//! functions' contracts speak of, and proved once and for all inputs.

use vstd::prelude::*;
use crate::commands::{dispatch_parse_model, exec_model, step_model, CommandModel};
use crate::errors::ErrModel;
use crate::storage::{
    db_create_table_model, db_delete_model, db_insert_model, insert_sorted, project_model,
    record_matches_schema, select_rows_model, table_insert_model, table_select_model, table_wf,
    DbModel, RecordModel, TableModel,
};
use crate::strmap::{assoc_keys, assoc_lookup, lemma_assoc_lookup_at};
use crate::storage::DatabaseKey;
use crate::tokenizer::{
    find_sub_model, is_space_char, lemma_find_single, lemma_find_sub_props, lemma_trim_ends,
    lemma_trim_of_clean, trim_model,
};
use crate::values::{KeyModel, ValueModel};
use crate::where_parsing::{
    eval_from_model, evaluate_model, math_eval_model, AnyOperator, ClauseModel, MathOperator,
};
use crate::float_bits::f64_is_zero;

verus! {

/// The record's values, one per schema column, in schema order.
pub open spec fn record_row(rec: RecordModel, schema: Seq<(Seq<char>, crate::values::ValueType)>) -> Seq<
    ValueModel,
> {
    Seq::new(schema.len() as nat, |j: int| assoc_lookup(rec, schema[j].0)->Some_0)
}

proof fn lemma_insert_sorted_len(records: Seq<(KeyModel, RecordModel)>, k: KeyModel, rec: RecordModel)
    ensures
        insert_sorted(records, k, rec).len() == records.len() + 1,
    decreases records.len(),
{
    if records.len() > 0 && crate::values::key_lt(records[0].0, k) {
        lemma_insert_sorted_len(records.drop_first(), k, rec);
    }
}

proof fn lemma_insert_sorted_split_exists(
    records: Seq<(KeyModel, RecordModel)>,
    k: KeyModel,
    rec: RecordModel,
)
    ensures
        exists|idx: int|
            0 <= idx <= records.len() && insert_sorted(records, k, rec) == records.take(idx)
                + seq![(k, rec)] + records.skip(idx),
    decreases records.len(),
{
    if records.len() == 0 || !crate::values::key_lt(records[0].0, k) {
        assert(insert_sorted(records, k, rec) =~= records.take(0) + seq![(k, rec)] + records.skip(
            0,
        ));
    } else {
        lemma_insert_sorted_split_exists(records.drop_first(), k, rec);
        let idx = choose|idx: int|
            0 <= idx <= records.drop_first().len() && insert_sorted(records.drop_first(), k, rec)
                == records.drop_first().take(idx) + seq![(k, rec)] + records.drop_first().skip(
                idx,
            );
        assert(insert_sorted(records, k, rec) =~= records.take(idx + 1) + seq![(k, rec)]
            + records.skip(idx + 1)) by {
            assert(records.drop_first().take(idx) =~= records.take(idx + 1).drop_first());
            assert(records.drop_first().skip(idx) =~= records.skip(idx + 1));
        }
    }
}

/// Projecting a record at every schema column succeeds and yields the
/// record's values in schema order.
proof fn lemma_project_schema(
    rec: RecordModel,
    schema: Seq<(Seq<char>, crate::values::ValueType)>,
    c: int,
)
    requires
        record_matches_schema(rec, schema),
        0 <= c <= schema.len(),
    ensures
        project_model(rec, assoc_keys(schema), c) matches Ok(row) && row
            == record_row(rec, schema).skip(c),
    decreases schema.len() - c,
{
    let cols = assoc_keys(schema);
    assert(cols.len() == schema.len());
    if c < schema.len() {
        assert(cols[c] == schema[c].0);
        assert(assoc_lookup(rec, schema[c].0) is Some);
        lemma_project_schema(rec, schema, c + 1);
        let row1 = project_model(rec, cols, c)->Ok_0;
        assert(row1 =~= record_row(rec, schema).skip(c)) by {
            assert(record_row(rec, schema).skip(c).drop_first() =~= record_row(
                rec,
                schema,
            ).skip(c + 1));
        }
    } else {
        assert(record_row(rec, schema).skip(c) =~= Seq::<ValueModel>::empty());
    }
}

/// With no WHERE clause a selection keeps every record: the rows are exactly
/// the per-record projections, in stored order.
proof fn lemma_select_rows_none(
    records: Seq<(KeyModel, RecordModel)>,
    cols: Seq<Seq<char>>,
    i: int,
)
    requires
        0 <= i <= records.len(),
        forall|j: int|
            0 <= j < records.len() ==> project_model((#[trigger] records[j]).1, cols, 0) is Ok,
    ensures
        select_rows_model(records, i, cols, None) matches Ok(rows) && rows.len() == records.len()
            - i && forall|p: int|
            0 <= p < records.len() - i ==> #[trigger] rows[p] == project_model(
                records[i + p].1,
                cols,
                0,
            )->Ok_0,
    decreases records.len() - i,
{
    if i < records.len() {
        lemma_select_rows_none(records, cols, i + 1);
    }
}

/// Law: inserting a record and then selecting every column with no WHERE
/// grows the table by exactly one record and shows the inserted record's
/// values, in schema order, at the row position where its key was placed.
pub proof fn lemma_insert_then_select_all<K: DatabaseKey>(tm: TableModel, rec: RecordModel)
    requires
        table_wf::<K>(tm),
        table_insert_model::<K>(tm, rec) is Ok,
    ensures
        ({
            let tm2 = table_insert_model::<K>(tm, rec)->Ok_0;
            let sel = table_select_model(tm2, assoc_keys(tm2.structure), None);
            &&& tm2.records.len() == tm.records.len() + 1
            &&& sel matches Ok(out) && out.header == assoc_keys(tm.structure) && exists|i: int|
                0 <= i < tm2.records.len() && (#[trigger] tm2.records[i]).1 == rec && out.rows[i]
                    == record_row(rec, tm.structure)
        }),
{
    let tm2 = table_insert_model::<K>(tm, rec)->Ok_0;
    let kv = assoc_lookup(rec, tm.key_name)->Some_0;
    let k = K::from_value_model(kv)->Some_0;
    assert(tm2.records == insert_sorted(tm.records, k, rec));
    assert(tm2.structure == tm.structure);
    lemma_insert_sorted_len(tm.records, k, rec);
    lemma_insert_sorted_split_exists(tm.records, k, rec);
    let idx = choose|idx: int|
        0 <= idx <= tm.records.len() && insert_sorted(tm.records, k, rec) == tm.records.take(idx)
            + seq![(k, rec)] + tm.records.skip(idx);
    assert(tm2.records[idx] == (k, rec));
    assert(forall|p: int| 0 <= p < idx ==> #[trigger] tm2.records[p] == tm.records[p]);
    assert(forall|p: int|
        idx < p < tm2.records.len() ==> #[trigger] tm2.records[p] == tm.records[p - 1]);
    let cols = assoc_keys(tm.structure);
    // every requested column is a schema column
    assert(forall|j: int|
        0 <= j < cols.len() ==> assoc_lookup(tm.structure, #[trigger] cols[j]) is Some) by {
        assert(forall|j: int| 0 <= j < cols.len() ==> cols[j] == tm.structure[j].0);
        assert forall|j: int|
            0 <= j < cols.len() implies assoc_lookup(tm.structure, tm.structure[j].0)
            is Some by {
            lemma_assoc_lookup_at(tm.structure, j);
        }
    }
    // every record in the grown table projects fully
    assert(record_matches_schema(rec, tm.structure));
    assert forall|j: int|
        0 <= j < tm2.records.len() implies project_model((#[trigger] tm2.records[j]).1, cols, 0)
        is Ok by {
        if j == idx {
            lemma_project_schema(rec, tm.structure, 0);
        } else if j < idx {
            lemma_project_schema(tm.records[j].1, tm.structure, 0);
        } else {
            lemma_project_schema(tm.records[j - 1].1, tm.structure, 0);
        }
    }
    lemma_select_rows_none(tm2.records, cols, 0);
    let rows = select_rows_model(tm2.records, 0, cols, None)->Ok_0;
    lemma_project_schema(rec, tm.structure, 0);
    assert(rows[idx] == project_model(rec, cols, 0)->Ok_0);
    assert(record_row(rec, tm.structure).skip(0) =~= record_row(rec, tm.structure));
    assert(tm2.records[idx].1 == rec && rows[idx] == record_row(rec, tm.structure));
}

/// Law: inserting a second record under a key that is already present fails
/// with `RecordAlreadyExists`; the executable insert's contract then
/// guarantees the table is left exactly as it was.
pub proof fn lemma_second_insert_same_key_fails<K: DatabaseKey>(
    tm: TableModel,
    rec: RecordModel,
    rec2: RecordModel,
)
    requires
        table_insert_model::<K>(tm, rec) is Ok,
        record_matches_schema(rec2, table_insert_model::<K>(tm, rec)->Ok_0.structure),
        assoc_lookup(rec2, tm.key_name) is Some,
        K::from_value_model(assoc_lookup(rec2, tm.key_name)->Some_0) == K::from_value_model(
            assoc_lookup(rec, tm.key_name)->Some_0,
        ),
        K::from_value_model(assoc_lookup(rec2, tm.key_name)->Some_0) is Some,
    ensures
        table_insert_model::<K>(table_insert_model::<K>(tm, rec)->Ok_0, rec2) == Err::<
            TableModel,
            ErrModel,
        >(ErrModel::RecordAlreadyExists),
{
    let tm2 = table_insert_model::<K>(tm, rec)->Ok_0;
    let kv = assoc_lookup(rec, tm.key_name)->Some_0;
    let k = K::from_value_model(kv)->Some_0;
    assert(tm2.records == insert_sorted(tm.records, k, rec));
    lemma_insert_sorted_split_exists(tm.records, k, rec);
    let idx = choose|idx: int|
        0 <= idx <= tm.records.len() && insert_sorted(tm.records, k, rec) == tm.records.take(idx)
            + seq![(k, rec)] + tm.records.skip(idx);
    assert(tm2.records[idx] == (k, rec));
    assert(tm2.contains_key(k));
}

/// Law: applying a division whose right operand is an exact IEEE-754 zero to
/// an integer left operand fails with `DivisionByZero`, so a clause ending in
/// such a division fails on every record that binds the column to an integer,
/// and a selection under it returns no partial result.
pub proof fn lemma_div_by_zero_fails(
    col: Seq<char>,
    zbits: u64,
    rec: RecordModel,
)
    requires
        f64_is_zero(zbits),
        assoc_lookup(rec, col) matches Some(v) && v is Int,
    ensures
        evaluate_model(
            seq![
                ClauseModel::ColumnIdentifier(col),
                ClauseModel::Constant(ValueModel::Float(zbits)),
                ClauseModel::Operator(AnyOperator::Math(MathOperator::Divide)),
            ],
            rec,
        ) == Err::<bool, ErrModel>(ErrModel::DivisionByZero),
{
    let elems = seq![
        ClauseModel::ColumnIdentifier(col),
        ClauseModel::Constant(ValueModel::Float(zbits)),
        ClauseModel::Operator(AnyOperator::Math(MathOperator::Divide)),
    ];
    let st0 = Seq::<ClauseModel>::empty();
    let st1 = st0.push(elems[0]);
    let st2 = st1.push(elems[1]);
    assert(st2.last() == elems[1]);
    assert(st2[st2.len() - 2] == elems[0]);
    assert(eval_from_model(elems, 0, st0, rec) == eval_from_model(elems, 1, st1, rec));
    assert(eval_from_model(elems, 1, st1, rec) == eval_from_model(elems, 2, st2, rec));
    let v = assoc_lookup(rec, col)->Some_0;
    assert(math_eval_model(MathOperator::Divide, v, ValueModel::Float(zbits)) == Err::<
        ValueModel,
        ErrModel,
    >(ErrModel::DivisionByZero));
}

/// What a command list rebuilds, started from a given database: each line
/// runs through the same parse-execute pipeline, and failures leave the state
/// alone.
pub open spec fn replay_model(base: DbModel, cmds: Seq<Seq<char>>) -> DbModel
    decreases cmds.len(),
{
    if cmds.len() == 0 {
        base
    } else {
        replay_model(step_model(base, Seq::empty(), cmds[0]).db, cmds.drop_first())
    }
}

proof fn lemma_step_db_ignores_log(
    dbm: DbModel,
    log1: Seq<Seq<char>>,
    log2: Seq<Seq<char>>,
    input: Seq<char>,
)
    ensures
        step_model(dbm, log1, input).db == step_model(dbm, log2, input).db,
{
}

proof fn lemma_replay_snoc(base: DbModel, cmds: Seq<Seq<char>>, c: Seq<char>)
    ensures
        replay_model(base, cmds.push(c)) == step_model(
            replay_model(base, cmds),
            Seq::empty(),
            c,
        ).db,
    decreases cmds.len(),
{
    if cmds.len() == 0 {
        assert(cmds.push(c)[0] == c);
        assert(cmds.push(c).drop_first() =~= Seq::<Seq<char>>::empty());
        assert(replay_model(step_model(base, Seq::empty(), c).db, Seq::<Seq<char>>::empty())
            == step_model(base, Seq::empty(), c).db);
    } else {
        assert(cmds.push(c)[0] == cmds[0]);
        assert(cmds.push(c).drop_first() =~= cmds.drop_first().push(c));
        lemma_replay_snoc(step_model(base, Seq::empty(), cmds[0]).db, cmds.drop_first(), c);
    }
}

/// The original text a parsed data command carries.
pub open spec fn original_of(cm: CommandModel) -> Seq<char> {
    match cm {
        CommandModel::Create { original, .. } => original,
        CommandModel::Insert { original, .. } => original,
        CommandModel::Delete { original, .. } => original,
        CommandModel::Select { original, .. } => original,
        CommandModel::SaveAs { file } => file,
        CommandModel::ReadFrom { file } => file,
    }
}

/// A logged command's text parses back, against the same database state, to
/// the very command it came from.
proof fn lemma_original_reparses(input: Seq<char>, dbm: DbModel)
    requires
        dispatch_parse_model(input, dbm) is Ok,
        !(dispatch_parse_model(input, dbm)->Ok_0 is SaveAs),
        !(dispatch_parse_model(input, dbm)->Ok_0 is ReadFrom),
    ensures
        dispatch_parse_model(original_of(dispatch_parse_model(input, dbm)->Ok_0), dbm)
            == dispatch_parse_model(input, dbm),
{
    let cm = dispatch_parse_model(input, dbm)->Ok_0;
    let t = trim_model(input);
    reveal_strlit(" ");
    assert(" "@ =~= seq![' ']);
    lemma_find_sub_props(t, " "@);
    let i = find_sub_model(t, " "@)->Some_0;
    let kw = t.subrange(0, i);
    let rest = t.subrange(i + 1, t.len() as int);
    lemma_trim_ends(input);
    // the rest is non-empty and ends in a non-space character, because each
    // data command's grammar needs a keyword inside it
    reveal_strlit("CREATE");
    reveal_strlit("INSERT");
    reveal_strlit("DELETE");
    reveal_strlit("SELECT");
    reveal_strlit("SAVE_AS");
    reveal_strlit("READ_FROM");
    reveal_strlit("CREATE ");
    reveal_strlit("INSERT ");
    reveal_strlit("DELETE ");
    reveal_strlit("SELECT ");
    reveal_strlit("KEY");
    reveal_strlit("INTO");
    reveal_strlit("FROM");
    if kw == "CREATE"@ {
        lemma_find_sub_props(rest, "KEY"@);
    } else if kw == "INSERT"@ {
        lemma_find_sub_props(rest, "INTO"@);
    } else if kw == "DELETE"@ {
        lemma_find_sub_props(rest, "FROM"@);
    } else if kw == "SELECT"@ {
        lemma_find_sub_props(rest, "FROM"@);
    }
    assert(rest.len() > 0);
    assert(rest.last() == t.last());
    assert(!is_space_char(rest.last()));
    let kw7: Seq<char> = if kw == "CREATE"@ {
        "CREATE "@
    } else if kw == "INSERT"@ {
        "INSERT "@
    } else if kw == "DELETE"@ {
        "DELETE "@
    } else {
        "SELECT "@
    };
    let o = kw7 + rest;
    assert(original_of(cm) == o);
    assert(o.len() == 7 + rest.len());
    assert(o[0] == kw7[0]);
    assert(!is_space_char(o[0]));
    assert(o.last() == rest.last());
    lemma_trim_of_clean(o);
    assert(trim_model(o) == o);
    assert(forall|m: int| 0 <= m < 7 ==> #[trigger] o[m] == kw7[m]);
    assert(forall|m: int| 0 <= m < 6 ==> o[m] != ' ');
    assert(o[6] == ' ');
    lemma_find_single(o, ' ', 6);
    assert(find_sub_model(o, " "@) == Some(6int));
    let kw2 = o.subrange(0, 6);
    let rest2 = o.subrange(7, o.len() as int);
    assert(kw2 =~= kw);
    assert(rest2 =~= rest);
}

/// Law: a database that a log rebuilds stays a database its log rebuilds,
/// through any one command. With a fresh empty store of the same key kind as
/// the base, this is the SAVE_AS / READ_FROM round trip: replaying the saved
/// command log reproduces an equivalent database state.
#[verifier::rlimit(100)]
pub proof fn lemma_step_preserves_replay(
    base: DbModel,
    log: Seq<Seq<char>>,
    dbm: DbModel,
    input: Seq<char>,
)
    requires
        dbm == replay_model(base, log),
    ensures
        step_model(dbm, log, input).db == replay_model(base, step_model(dbm, log, input).log),
{
    let st = step_model(dbm, log, input);
    match dispatch_parse_model(input, dbm) {
        Err(_) => {
        },
        Ok(cm) => {
            let ex = exec_model(cm, dbm, log);
            match cm {
                CommandModel::SaveAs { .. } => {
                },
                CommandModel::ReadFrom { .. } => {
                },
                CommandModel::Create { original, name, key_name, fields } => {
                    if db_create_table_model(dbm, name, key_name, fields) is Ok {
                        lemma_replay_snoc(base, log, original);
                        lemma_original_reparses(input, dbm);
                        assert(step_model(dbm, Seq::empty(), original).db == st.db);
                    }
                },
                CommandModel::Insert { original, table_name, rec } => {
                    if db_insert_model(dbm, table_name, rec) is Ok {
                        lemma_replay_snoc(base, log, original);
                        lemma_original_reparses(input, dbm);
                        assert(step_model(dbm, Seq::empty(), original).db == st.db);
                    }
                },
                CommandModel::Delete { original, table_name, key_text } => {
                    if db_delete_model(dbm, table_name, key_text) is Ok {
                        lemma_replay_snoc(base, log, original);
                        lemma_original_reparses(input, dbm);
                        assert(step_model(dbm, Seq::empty(), original).db == st.db);
                    }
                },
                CommandModel::Select { original, table_name, cols, cond } => {
                    if st.log == log.push(original) {
                        lemma_replay_snoc(base, log, original);
                        lemma_original_reparses(input, dbm);
                        assert(step_model(dbm, Seq::empty(), original).db == dbm);
                        assert(st.db == dbm);
                    }
                },
            }
        },
    }
}

/// An empty log rebuilds the base state itself.
pub proof fn lemma_replay_empty(base: DbModel)
    ensures
        replay_model(base, Seq::empty()) == base,
{
}

} // verus!
