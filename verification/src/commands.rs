//! The command layer: six command kinds, each parsed in one phase and
//! executed in another against the storage layer. Parse failures wrap as
//! `CommandParseError`, execute failures as `CommandExecuteError`; every
//! successfully executed data command appends its original text to the replay
//! log, and the two file commands hand their work back to the caller as an
//! outcome to perform.

use vstd::prelude::*;
use vstd::string::{StrSliceExecFns, StringExecFns};
use crate::errors::{ErrModel, MyDatabaseError};
use crate::storage::{
    db_create_table_model, db_delete_model, db_insert_model, table_select_model, AnyDatabase,
    DbModel, RecordModel, SelectModel, SelectOutput,
};
use crate::strmap::{assoc_keys, assoc_lookup, StrKeyMap};
use crate::tokenizer::{
    find_sub_model, split_once_skipping_model, split_once_skipping_outside_quotes, split_plain,
    split_plain_model, split_preserving_quote_insides, split_quoted_model, str_eq, str_views,
    trim_model, trim_str,
};
use crate::values::{get_value_model, Value, ValueModel, ValueType};
use crate::where_parsing::{where_clause_model, ClauseModel, WhereClause};

verus! {

/// A parsed command at the model level.
pub enum CommandModel {
    Create {
        original: Seq<char>,
        name: Seq<char>,
        key_name: Seq<char>,
        fields: Seq<(Seq<char>, ValueType)>,
    },
    Insert { original: Seq<char>, table_name: Seq<char>, rec: RecordModel },
    Delete { original: Seq<char>, table_name: Seq<char>, key_text: Seq<char> },
    Select {
        original: Seq<char>,
        table_name: Seq<char>,
        cols: Seq<Seq<char>>,
        cond: Option<Seq<ClauseModel>>,
    },
    SaveAs { file: Seq<char> },
    ReadFrom { file: Seq<char> },
}

/// What one command hands back at the model level.
pub enum OutcomeModel {
    Unit,
    Rows(SelectModel),
    SaveTo(Seq<char>),
    ReadLines(Seq<char>),
}

/// What executing one command leaves behind: its result, the database and the
/// log afterwards.
pub struct StepModel {
    pub result: Result<OutcomeModel, ErrModel>,
    pub db: DbModel,
    pub log: Seq<Seq<char>>,
}

/// What one command hands back to the front end: nothing, rows to render, or
/// a file path to write to or read commands from.
#[derive(Debug)]
pub enum CmdOutcome {
    Unit,
    Rows(SelectOutput),
    SaveTo(String),
    ReadLines(String),
}

impl View for CmdOutcome {
    type V = OutcomeModel;

    open spec fn view(&self) -> OutcomeModel {
        match self {
            CmdOutcome::Unit => OutcomeModel::Unit,
            CmdOutcome::Rows(out) => OutcomeModel::Rows(out@),
            CmdOutcome::SaveTo(f) => OutcomeModel::SaveTo(f@),
            CmdOutcome::ReadLines(f) => OutcomeModel::ReadLines(f@),
        }
    }
}

/// The view of the replay log.
pub open spec fn log_view(log: Seq<String>) -> Seq<Seq<char>> {
    log.map_values(|s: String| s@)
}

/// The schema entries a CREATE field list denotes, from piece `j` on,
/// accumulated left to right; a later duplicate column overwrites the value.
pub open spec fn create_fields_model(
    pieces: Seq<Seq<char>>,
    j: int,
    acc: Seq<(Seq<char>, ValueType)>,
) -> Result<Seq<(Seq<char>, ValueType)>, ErrModel>
    decreases pieces.len() - j,
{
    if j < 0 || j >= pieces.len() {
        Ok(acc)
    } else {
        let piece = trim_model(pieces[j]);
        match find_sub_model(piece, ":"@) {
            None => Err(ErrModel::InvalidCommandFormat("CREATE"@)),
            Some(i) => {
                let name = trim_model(piece.subrange(0, i));
                let tstr = trim_model(piece.subrange(i + 1, piece.len() as int));
                if tstr == "Bool"@ {
                    create_fields_model(pieces, j + 1, crate::strmap::assoc_set(acc, name, ValueType::Bool))
                } else if tstr == "String"@ {
                    create_fields_model(pieces, j + 1, crate::strmap::assoc_set(acc, name, ValueType::String))
                } else if tstr == "Int"@ {
                    create_fields_model(pieces, j + 1, crate::strmap::assoc_set(acc, name, ValueType::Int))
                } else if tstr == "Float"@ {
                    create_fields_model(pieces, j + 1, crate::strmap::assoc_set(acc, name, ValueType::Float))
                } else {
                    Err(ErrModel::InvalidFieldType)
                }
            },
        }
    }
}

/// What parsing `CREATE <name> KEY <key_col> FIELDS <col>:<Type>, ...` does.
pub open spec fn create_parse_model(input: Seq<char>) -> Result<CommandModel, ErrModel> {
    match find_sub_model(input, "KEY"@) {
        None => Err(ErrModel::InvalidCommandFormat("CREATE"@)),
        Some(i) => {
            let name = trim_model(input.subrange(0, i));
            let rest = trim_model(input.subrange(i + 3, input.len() as int));
            match find_sub_model(rest, "FIELDS"@) {
                None => Err(ErrModel::InvalidCommandFormat("CREATE"@)),
                Some(k) => {
                    let key_name = trim_model(rest.subrange(0, k));
                    let fields_str = trim_model(rest.subrange(k + 6, rest.len() as int));
                    match create_fields_model(
                        split_plain_model(fields_str, ','),
                        0,
                        Seq::empty(),
                    ) {
                        Err(e) => Err(e),
                        Ok(fields) => Ok(
                            CommandModel::Create {
                                original: "CREATE "@ + input,
                                name,
                                key_name,
                                fields,
                            },
                        ),
                    }
                },
            }
        },
    }
}

/// The record an INSERT assignment list denotes, from pair `j` on: each pair
/// is split at `=`, the column must be in the schema, the raw text must parse
/// under the column's type, and a column may be assigned only once.
pub open spec fn insert_pairs_model(
    pairs: Seq<Seq<char>>,
    j: int,
    schema: Seq<(Seq<char>, ValueType)>,
    acc: RecordModel,
) -> Result<RecordModel, ErrModel>
    decreases pairs.len() - j,
{
    if j < 0 || j >= pairs.len() {
        Ok(acc)
    } else {
        match split_once_skipping_model(pairs[j], '=') {
            None => Err(ErrModel::InvalidCommandFormat("INSERT"@)),
            Some(p) => {
                let fname = trim_model(p.0);
                match assoc_lookup(schema, fname) {
                    None => Err(ErrModel::InvalidFieldName),
                    Some(t) => match get_value_model(t, trim_model(p.1)) {
                        None => Err(ErrModel::InvalidFieldValue),
                        Some(v) => if assoc_lookup(acc, fname) is Some {
                            Err(ErrModel::DuplicateColumnName)
                        } else {
                            insert_pairs_model(pairs, j + 1, schema, acc.push((fname, v)))
                        },
                    },
                }
            },
        }
    }
}

/// What parsing `INSERT <col>=<value>, ... INTO <table>` does.
pub open spec fn insert_parse_model(input: Seq<char>, dbm: DbModel) -> Result<
    CommandModel,
    ErrModel,
> {
    match find_sub_model(input, "INTO"@) {
        None => Err(ErrModel::InvalidCommandFormat("INSERT"@)),
        Some(i) => {
            let values_str = input.subrange(0, i);
            let tname = trim_model(input.subrange(i + 4, input.len() as int));
            match assoc_lookup(dbm.tables, tname) {
                None => Err(ErrModel::TableNotFound(tname)),
                Some(tm) => {
                    match insert_pairs_model(
                        split_quoted_model(values_str, ','),
                        0,
                        tm.structure,
                        Seq::empty(),
                    ) {
                        Err(e) => Err(e),
                        Ok(rec) => Ok(
                            CommandModel::Insert {
                                original: "INSERT "@ + input,
                                table_name: tname,
                                rec,
                            },
                        ),
                    }
                },
            }
        },
    }
}

/// What parsing `DELETE <key> FROM <table>` does.
pub open spec fn delete_parse_model(input: Seq<char>, dbm: DbModel) -> Result<
    CommandModel,
    ErrModel,
> {
    match find_sub_model(input, "FROM"@) {
        None => Err(ErrModel::InvalidCommandFormat("DELETE"@)),
        Some(i) => {
            let key_text = trim_model(input.subrange(0, i));
            let tname = trim_model(input.subrange(i + 4, input.len() as int));
            match assoc_lookup(dbm.tables, tname) {
                None => Err(ErrModel::TableNotFound(tname)),
                Some(_) => Ok(
                    CommandModel::Delete {
                        original: "DELETE "@ + input,
                        table_name: tname,
                        key_text,
                    },
                ),
            }
        },
    }
}

/// What parsing `SELECT <cols|*> FROM <table> [WHERE <expr>]` does.
pub open spec fn select_parse_model(input: Seq<char>, dbm: DbModel) -> Result<
    CommandModel,
    ErrModel,
> {
    match find_sub_model(input, "FROM"@) {
        None => Err(ErrModel::InvalidCommandFormat("SELECT"@)),
        Some(i) => {
            let fields_part = input.subrange(0, i);
            let tr = trim_model(input.subrange(i + 4, input.len() as int));
            let tname = match find_sub_model(tr, "WHERE"@) {
                Some(k) => trim_model(tr.subrange(0, k)),
                None => tr,
            };
            let cond_text = match find_sub_model(tr, "WHERE"@) {
                Some(k) => Some(trim_model(tr.subrange(k + 5, tr.len() as int))),
                None => None,
            };
            match assoc_lookup(dbm.tables, tname) {
                None => Err(ErrModel::TableNotFound(tname)),
                Some(tm) => {
                    let cols = if trim_model(fields_part) == "*"@ {
                        assoc_keys(tm.structure)
                    } else {
                        split_quoted_model(fields_part, ',')
                    };
                    match cond_text {
                        None => Ok(
                            CommandModel::Select {
                                original: "SELECT "@ + input,
                                table_name: tname,
                                cols,
                                cond: None,
                            },
                        ),
                        Some(ct) => match where_clause_model(ct, tm.structure) {
                            Err(e) => Err(e),
                            Ok(cm) => Ok(
                                CommandModel::Select {
                                    original: "SELECT "@ + input,
                                    table_name: tname,
                                    cols,
                                    cond: Some(cm),
                                },
                            ),
                        },
                    }
                },
            }
        },
    }
}

/// How the dispatcher reads one whole command: the leading
/// whitespace-delimited keyword routes to one of the six kinds.
pub open spec fn dispatch_parse_model(input: Seq<char>, dbm: DbModel) -> Result<
    CommandModel,
    ErrModel,
> {
    let t = trim_model(input);
    match find_sub_model(t, " "@) {
        None => Err(ErrModel::InvalidCommandFormat("UNKNOWN"@)),
        Some(i) => {
            let kw = t.subrange(0, i);
            let rest = t.subrange(i + 1, t.len() as int);
            if kw == "CREATE"@ {
                create_parse_model(rest)
            } else if kw == "INSERT"@ {
                insert_parse_model(rest, dbm)
            } else if kw == "DELETE"@ {
                delete_parse_model(rest, dbm)
            } else if kw == "SELECT"@ {
                select_parse_model(rest, dbm)
            } else if kw == "SAVE_AS"@ {
                Ok(CommandModel::SaveAs { file: trim_model(rest) })
            } else if kw == "READ_FROM"@ {
                Ok(CommandModel::ReadFrom { file: trim_model(rest) })
            } else {
                Err(ErrModel::InvalidCommandFormat("UNKNOWN"@))
            }
        },
    }
}

/// What executing one parsed command does: data commands run against the
/// database and append their original text to the log on success; the file
/// commands only hand the path back as an outcome to perform.
pub open spec fn exec_model(cm: CommandModel, dbm: DbModel, log: Seq<Seq<char>>) -> StepModel {
    match cm {
        CommandModel::Create { original, name, key_name, fields } => {
            match db_create_table_model(dbm, name, key_name, fields) {
                Ok(db2) => StepModel {
                    result: Ok(OutcomeModel::Unit),
                    db: db2,
                    log: log.push(original),
                },
                Err(e) => StepModel { result: Err(e), db: dbm, log },
            }
        },
        CommandModel::Insert { original, table_name, rec } => {
            match db_insert_model(dbm, table_name, rec) {
                Ok(db2) => StepModel {
                    result: Ok(OutcomeModel::Unit),
                    db: db2,
                    log: log.push(original),
                },
                Err(e) => StepModel { result: Err(e), db: dbm, log },
            }
        },
        CommandModel::Delete { original, table_name, key_text } => {
            match db_delete_model(dbm, table_name, key_text) {
                Ok(db2) => StepModel {
                    result: Ok(OutcomeModel::Unit),
                    db: db2,
                    log: log.push(original),
                },
                Err(e) => StepModel { result: Err(e), db: dbm, log },
            }
        },
        CommandModel::Select { original, table_name, cols, cond } => {
            match assoc_lookup(dbm.tables, table_name) {
                None => StepModel {
                    result: Err(ErrModel::TableNotFound(table_name)),
                    db: dbm,
                    log,
                },
                Some(tm) => match table_select_model(tm, cols, cond) {
                    Ok(sm) => StepModel {
                        result: Ok(OutcomeModel::Rows(sm)),
                        db: dbm,
                        log: log.push(original),
                    },
                    Err(e) => StepModel { result: Err(e), db: dbm, log },
                },
            }
        },
        CommandModel::SaveAs { file } => StepModel {
            result: Ok(OutcomeModel::SaveTo(file)),
            db: dbm,
            log,
        },
        CommandModel::ReadFrom { file } => StepModel {
            result: Ok(OutcomeModel::ReadLines(file)),
            db: dbm,
            log,
        },
    }
}

/// The whole pipeline for one command string: parse, then execute, with each
/// phase's failure wrapped in its own error kind and nothing changed on
/// failure.
pub open spec fn step_model(dbm: DbModel, log: Seq<Seq<char>>, input: Seq<char>) -> StepModel {
    match dispatch_parse_model(input, dbm) {
        Err(e) => StepModel {
            result: Err(ErrModel::CommandParseError(Box::new(e))),
            db: dbm,
            log,
        },
        Ok(cm) => {
            let st = exec_model(cm, dbm, log);
            match st.result {
                Err(e) => StepModel {
                    result: Err(ErrModel::CommandExecuteError(Box::new(e))),
                    db: st.db,
                    log: st.log,
                },
                Ok(out) => StepModel { result: Ok(out), db: st.db, log: st.log },
            }
        },
    }
}

/// `CREATE <name> KEY <key_col> FIELDS <col>:<Type>, ...`
#[derive(Debug)]
pub struct CreateTableCmd {
    original_string: String,
    name: String,
    key_name: String,
    fields: StrKeyMap<ValueType>,
}

impl View for CreateTableCmd {
    type V = CommandModel;

    closed spec fn view(&self) -> CommandModel {
        CommandModel::Create {
            original: self.original_string@,
            name: self.name@,
            key_name: self.key_name@,
            fields: self.fields@,
        }
    }
}

impl CreateTableCmd {
    /// The parsed field map carries pairwise-distinct column entries only in
    /// the sense of the map structure used; a later duplicate overwrote the
    /// earlier value.
    pub closed spec fn wf(&self) -> bool {
        self.fields.wf()
    }

    pub fn parse_input(input: &str, _context_db: &AnyDatabase) -> (r: Result<
        Self,
        MyDatabaseError,
    >)
        ensures
            match r {
                Ok(cmd) => create_parse_model(input@) == Ok::<CommandModel, ErrModel>(cmd@)
                    && cmd.wf(),
                Err(e) => create_parse_model(input@) == Err::<CommandModel, ErrModel>(e@),
            },
    {
        proof {
            reveal_strlit("KEY");
            reveal_strlit("FIELDS");
            reveal_strlit(":");
        }
        let (name_part, rest_raw) = match crate::tokenizer::split_once_str(input, "KEY") {
            Some(p) => p,
            None => {
                return Err(MyDatabaseError::InvalidCommandFormat(String::from_str("CREATE")));
            },
        };
        let rest = trim_str(rest_raw);
        let (key_part, fields_raw) = match crate::tokenizer::split_once_str(rest, "FIELDS") {
            Some(p) => p,
            None => {
                return Err(MyDatabaseError::InvalidCommandFormat(String::from_str("CREATE")));
            },
        };
        let fields_str = trim_str(fields_raw);
        let ghost namem = trim_model(name_part@);
        let ghost keym = trim_model(key_part@);
        let pieces = split_plain(fields_str, ',');
        let ghost piecesm = split_plain_model(fields_str@, ',');
        proof {
            assert(create_parse_model(input@) == (match create_fields_model(
                piecesm,
                0,
                Seq::empty(),
            ) {
                Err(e) => Err::<CommandModel, ErrModel>(e),
                Ok(f) => Ok(
                    CommandModel::Create {
                        original: "CREATE "@ + input@,
                        name: namem,
                        key_name: keym,
                        fields: f,
                    },
                ),
            }));
        }
        let mut fields: StrKeyMap<ValueType> = StrKeyMap::new();
        let mut j: usize = 0;
        while j < pieces.len()
            invariant
                0 <= j <= pieces@.len(),
                piecesm == str_views(pieces@),
                fields.wf(),
                create_fields_model(piecesm, 0, Seq::empty()) == create_fields_model(
                    piecesm,
                    j as int,
                    fields@,
                ),
                create_parse_model(input@) == (match create_fields_model(
                    piecesm,
                    0,
                    Seq::empty(),
                ) {
                    Err(e) => Err::<CommandModel, ErrModel>(e),
                    Ok(f) => Ok(
                        CommandModel::Create {
                            original: "CREATE "@ + input@,
                            name: namem,
                            key_name: keym,
                            fields: f,
                        },
                    ),
                }),
            decreases pieces@.len() - j,
        {
            proof {
                reveal_strlit(":");
            }
            let piece = trim_str(pieces[j]);
            let (l, rr) = match crate::tokenizer::split_once_str(piece, ":") {
                Some(p) => p,
                None => {
                    return Err(MyDatabaseError::InvalidCommandFormat(String::from_str("CREATE")));
                },
            };
            let field_name = trim_str(l);
            let type_str = trim_str(rr);
            let vt = if str_eq(type_str, "Bool") {
                ValueType::Bool
            } else if str_eq(type_str, "String") {
                ValueType::String
            } else if str_eq(type_str, "Int") {
                ValueType::Int
            } else if str_eq(type_str, "Float") {
                ValueType::Float
            } else {
                return Err(MyDatabaseError::InvalidFieldType);
            };
            fields.set(field_name.to_owned(), vt);
            j += 1;
        }
        proof {
            assert(create_fields_model(piecesm, piecesm.len() as int, fields@) == Ok::<
                Seq<(Seq<char>, ValueType)>,
                ErrModel,
            >(fields@));
        }
        Ok(
            CreateTableCmd {
                original_string: String::from_str("CREATE ").concat(input),
                name: trim_str(name_part).to_owned(),
                key_name: trim_str(key_part).to_owned(),
                fields,
            },
        )
    }

    /// Create the table, and log the command text on success.
    pub fn execute(self, db: &mut AnyDatabase, executed_commands: &mut Vec<String>) -> (r: Result<
        CmdOutcome,
        MyDatabaseError,
    >)
        requires
            old(db).wf(),
            self.wf(),
        ensures
            final(db).wf(),
            ({
                let st = exec_model(self@, old(db)@, log_view(old(executed_commands)@));
                &&& final(db)@ == st.db
                &&& log_view(final(executed_commands)@) == st.log
                &&& match r {
                    Ok(out) => st.result == Ok::<OutcomeModel, ErrModel>(out@),
                    Err(e) => st.result == Err::<OutcomeModel, ErrModel>(e@),
                }
            }),
    {
        match db.create_table(self.name.as_str(), self.key_name.as_str(), self.fields) {
            Ok(_) => {
                let ghost prevlog = executed_commands@;
                executed_commands.push(self.original_string);
                proof {
                    assert(log_view(executed_commands@) =~= log_view(prevlog).push(
                        self.original_string@,
                    ));
                }
                Ok(CmdOutcome::Unit)
            },
            Err(e) => Err(e),
        }
    }
}

/// `INSERT <col>=<value>, ... INTO <table>`
#[derive(Debug)]
pub struct InsertRecordCmd {
    original_string: String,
    table_name: String,
    values: StrKeyMap<Value>,
}

impl View for InsertRecordCmd {
    type V = CommandModel;

    closed spec fn view(&self) -> CommandModel {
        CommandModel::Insert {
            original: self.original_string@,
            table_name: self.table_name@,
            rec: self.values@,
        }
    }
}

impl InsertRecordCmd {
    pub fn parse_input(input: &str, context_db: &AnyDatabase) -> (r: Result<
        Self,
        MyDatabaseError,
    >)
        ensures
            match r {
                Ok(cmd) => insert_parse_model(input@, context_db@) == Ok::<
                    CommandModel,
                    ErrModel,
                >(cmd@),
                Err(e) => insert_parse_model(input@, context_db@) == Err::<
                    CommandModel,
                    ErrModel,
                >(e@),
            },
    {
        proof {
            reveal_strlit("INTO");
        }
        let (values_str, table_raw) = match crate::tokenizer::split_once_str(input, "INTO") {
            Some(p) => p,
            None => {
                return Err(MyDatabaseError::InvalidCommandFormat(String::from_str("INSERT")));
            },
        };
        let table_name = trim_str(table_raw);
        let table = match context_db.get_table_by_name(table_name) {
            Ok(t) => t,
            Err(e) => {
                return Err(e);
            },
        };
        let pairs = split_preserving_quote_insides(values_str, ',');
        let ghost pairsm = split_quoted_model(values_str@, ',');
        let ghost schema = table@.structure;
        let ghost tnamem = trim_model(table_raw@);
        proof {
            assert(insert_parse_model(input@, context_db@) == (match insert_pairs_model(
                pairsm,
                0,
                schema,
                Seq::empty(),
            ) {
                Err(e) => Err::<CommandModel, ErrModel>(e),
                Ok(rec) => Ok(
                    CommandModel::Insert {
                        original: "INSERT "@ + input@,
                        table_name: tnamem,
                        rec,
                    },
                ),
            }));
        }
        let mut values: StrKeyMap<Value> = StrKeyMap::new();
        let mut j: usize = 0;
        while j < pairs.len()
            invariant
                0 <= j <= pairs@.len(),
                pairsm == str_views(pairs@),
                schema == table@.structure,
                insert_pairs_model(pairsm, 0, schema, Seq::empty()) == insert_pairs_model(
                    pairsm,
                    j as int,
                    schema,
                    values@,
                ),
                insert_parse_model(input@, context_db@) == (match insert_pairs_model(
                    pairsm,
                    0,
                    schema,
                    Seq::empty(),
                ) {
                    Err(e) => Err::<CommandModel, ErrModel>(e),
                    Ok(rec) => Ok(
                        CommandModel::Insert {
                            original: "INSERT "@ + input@,
                            table_name: tnamem,
                            rec,
                        },
                    ),
                }),
            decreases pairs@.len() - j,
        {
            let (field_raw, value_raw) = match split_once_skipping_outside_quotes(pairs[j], '=') {
                Some(p) => p,
                None => {
                    return Err(MyDatabaseError::InvalidCommandFormat(String::from_str("INSERT")));
                },
            };
            let field_name = trim_str(field_raw);
            let field_type = match table.get_type_for_name(field_name) {
                Some(t) => t,
                None => {
                    return Err(MyDatabaseError::InvalidFieldName);
                },
            };
            let value = match field_type.get_value(trim_str(value_raw)) {
                Ok(v) => v,
                Err(e) => {
                    return Err(e);
                },
            };
            if !values.try_insert(field_name.to_owned(), value) {
                return Err(MyDatabaseError::DuplicateColumnName);
            }
            j += 1;
        }
        proof {
            assert(insert_pairs_model(pairsm, pairsm.len() as int, schema, values@) == Ok::<
                RecordModel,
                ErrModel,
            >(values@));
        }
        Ok(
            InsertRecordCmd {
                original_string: String::from_str("INSERT ").concat(input),
                table_name: table_name.to_owned(),
                values,
            },
        )
    }

    /// Insert the record, and log the command text on success.
    pub fn execute(self, db: &mut AnyDatabase, executed_commands: &mut Vec<String>) -> (r: Result<
        CmdOutcome,
        MyDatabaseError,
    >)
        requires
            old(db).wf(),
        ensures
            final(db).wf(),
            ({
                let st = exec_model(self@, old(db)@, log_view(old(executed_commands)@));
                &&& final(db)@ == st.db
                &&& log_view(final(executed_commands)@) == st.log
                &&& match r {
                    Ok(out) => st.result == Ok::<OutcomeModel, ErrModel>(out@),
                    Err(e) => st.result == Err::<OutcomeModel, ErrModel>(e@),
                }
            }),
    {
        match db.insert_values(self.table_name.as_str(), self.values) {
            Ok(_) => {
                let ghost prevlog = executed_commands@;
                executed_commands.push(self.original_string);
                proof {
                    assert(log_view(executed_commands@) =~= log_view(prevlog).push(
                        self.original_string@,
                    ));
                }
                Ok(CmdOutcome::Unit)
            },
            Err(e) => Err(e),
        }
    }
}

/// `DELETE <key> FROM <table>`
#[derive(Debug)]
pub struct DeleteRecordCmd {
    original_string: String,
    table_name: String,
    key_as_string: String,
}

impl View for DeleteRecordCmd {
    type V = CommandModel;

    closed spec fn view(&self) -> CommandModel {
        CommandModel::Delete {
            original: self.original_string@,
            table_name: self.table_name@,
            key_text: self.key_as_string@,
        }
    }
}

impl DeleteRecordCmd {
    pub fn parse_input(input: &str, context_db: &AnyDatabase) -> (r: Result<
        Self,
        MyDatabaseError,
    >)
        ensures
            match r {
                Ok(cmd) => delete_parse_model(input@, context_db@) == Ok::<
                    CommandModel,
                    ErrModel,
                >(cmd@),
                Err(e) => delete_parse_model(input@, context_db@) == Err::<
                    CommandModel,
                    ErrModel,
                >(e@),
            },
    {
        proof {
            reveal_strlit("FROM");
        }
        let (key_raw, table_raw) = match crate::tokenizer::split_once_str(input, "FROM") {
            Some(p) => p,
            None => {
                return Err(MyDatabaseError::InvalidCommandFormat(String::from_str("DELETE")));
            },
        };
        let table_name = trim_str(table_raw);
        match context_db.get_table_by_name(table_name) {
            Ok(_) => {},
            Err(e) => {
                return Err(e);
            },
        }
        Ok(
            DeleteRecordCmd {
                original_string: String::from_str("DELETE ").concat(input),
                table_name: table_name.to_owned(),
                key_as_string: trim_str(key_raw).to_owned(),
            },
        )
    }

    /// Delete the record, and log the command text on success.
    pub fn execute(self, db: &mut AnyDatabase, executed_commands: &mut Vec<String>) -> (r: Result<
        CmdOutcome,
        MyDatabaseError,
    >)
        requires
            old(db).wf(),
        ensures
            final(db).wf(),
            ({
                let st = exec_model(self@, old(db)@, log_view(old(executed_commands)@));
                &&& final(db)@ == st.db
                &&& log_view(final(executed_commands)@) == st.log
                &&& match r {
                    Ok(out) => st.result == Ok::<OutcomeModel, ErrModel>(out@),
                    Err(e) => st.result == Err::<OutcomeModel, ErrModel>(e@),
                }
            }),
    {
        match db.delete_key(self.table_name.as_str(), self.key_as_string) {
            Ok(_) => {
                let ghost prevlog = executed_commands@;
                executed_commands.push(self.original_string);
                proof {
                    assert(log_view(executed_commands@) =~= log_view(prevlog).push(
                        self.original_string@,
                    ));
                }
                Ok(CmdOutcome::Unit)
            },
            Err(e) => Err(e),
        }
    }
}

/// `SELECT <cols|*> FROM <table> [WHERE <expr>]`
#[derive(Debug)]
pub struct SelectCmd {
    original_string: String,
    table_name: String,
    values_to_select: Vec<String>,
    condition: Option<WhereClause>,
}

impl View for SelectCmd {
    type V = CommandModel;

    closed spec fn view(&self) -> CommandModel {
        CommandModel::Select {
            original: self.original_string@,
            table_name: self.table_name@,
            cols: self.values_to_select@.map_values(|s: String| s@),
            cond: match self.condition {
                Some(c) => Some(c@),
                None => None,
            },
        }
    }
}

impl SelectCmd {
    pub fn parse_input(input: &str, context_db: &AnyDatabase) -> (r: Result<
        Self,
        MyDatabaseError,
    >)
        ensures
            match r {
                Ok(cmd) => select_parse_model(input@, context_db@) == Ok::<
                    CommandModel,
                    ErrModel,
                >(cmd@),
                Err(e) => select_parse_model(input@, context_db@) == Err::<
                    CommandModel,
                    ErrModel,
                >(e@),
            },
    {
        proof {
            reveal_strlit("FROM");
            reveal_strlit("WHERE");
        }
        let (fields_part, rest_raw) = match crate::tokenizer::split_once_str(input, "FROM") {
            Some(p) => p,
            None => {
                return Err(MyDatabaseError::InvalidCommandFormat(String::from_str("SELECT")));
            },
        };
        let tr = trim_str(rest_raw);
        let mut cond_text: Option<&str> = None;
        let table_name: &str = match crate::tokenizer::split_once_str(tr, "WHERE") {
            Some((table_part, cond_part)) => {
                cond_text = Some(trim_str(cond_part));
                trim_str(table_part)
            },
            None => tr,
        };
        let table = match context_db.get_table_by_name(table_name) {
            Ok(t) => t,
            Err(e) => {
                return Err(e);
            },
        };
        let mut values_to_select: Vec<String> = Vec::new();
        if str_eq(trim_str(fields_part), "*") {
            values_to_select = table.get_all_columns();
        } else {
            let pieces = split_preserving_quote_insides(fields_part, ',');
            let mut j: usize = 0;
            while j < pieces.len()
                invariant
                    0 <= j <= pieces@.len(),
                    values_to_select@.len() == j,
                    forall|p: int|
                        0 <= p < j ==> (#[trigger] values_to_select@[p])@ == pieces@[p]@,
                decreases pieces@.len() - j,
            {
                values_to_select.push(pieces[j].to_owned());
                j += 1;
            }
            proof {
                assert(values_to_select@.map_values(|s: String| s@) =~= str_views(pieces@));
            }
        }
        let condition: Option<WhereClause> = match cond_text {
            Some(ct) => {
                match WhereClause::create_from_string(ct, table.get_structure()) {
                    Ok(w) => Some(w),
                    Err(e) => {
                        return Err(e);
                    },
                }
            },
            None => None,
        };
        let r = SelectCmd {
            original_string: String::from_str("SELECT ").concat(input),
            table_name: table_name.to_owned(),
            values_to_select,
            condition,
        };
        Ok(r)
    }

    /// Run the selection, and log the command text on success.
    pub fn execute(self, db: &mut AnyDatabase, executed_commands: &mut Vec<String>) -> (r: Result<
        CmdOutcome,
        MyDatabaseError,
    >)
        requires
            old(db).wf(),
        ensures
            final(db).wf(),
            ({
                let st = exec_model(self@, old(db)@, log_view(old(executed_commands)@));
                &&& final(db)@ == st.db
                &&& log_view(final(executed_commands)@) == st.log
                &&& match r {
                    Ok(out) => st.result == Ok::<OutcomeModel, ErrModel>(out@),
                    Err(e) => st.result == Err::<OutcomeModel, ErrModel>(e@),
                }
            }),
    {
        let table = match db.get_table_by_name(self.table_name.as_str()) {
            Ok(t) => t,
            Err(e) => {
                return Err(e);
            },
        };
        match table.select_and_display(&self.values_to_select, &self.condition) {
            Ok(out) => {
                let ghost prevlog = executed_commands@;
                executed_commands.push(self.original_string);
                proof {
                    assert(log_view(executed_commands@) =~= log_view(prevlog).push(
                        self.original_string@,
                    ));
                }
                Ok(CmdOutcome::Rows(out))
            },
            Err(e) => Err(e),
        }
    }
}

/// `SAVE_AS <path>`: the library only decides; writing the file is the
/// caller's step, performed on the returned outcome.
#[derive(Debug)]
pub struct SaveAsCmd {
    filename: String,
}

impl View for SaveAsCmd {
    type V = CommandModel;

    closed spec fn view(&self) -> CommandModel {
        CommandModel::SaveAs { file: self.filename@ }
    }
}

impl SaveAsCmd {
    pub fn parse_input(input: &str, _context_db: &AnyDatabase) -> (r: Result<
        Self,
        MyDatabaseError,
    >)
        ensures
            (r matches Ok(cmd) && cmd@ == (CommandModel::SaveAs { file: trim_model(input@) })),
    {
        Ok(SaveAsCmd { filename: trim_str(input).to_owned() })
    }

    pub fn execute(self, db: &mut AnyDatabase, executed_commands: &mut Vec<String>) -> (r: Result<
        CmdOutcome,
        MyDatabaseError,
    >)
        ensures
            (r matches Ok(out) && out@ == OutcomeModel::SaveTo(self@->SaveAs_file)),
            *final(db) == *old(db),
            *final(executed_commands) == *old(executed_commands),
    {
        Ok(CmdOutcome::SaveTo(self.filename))
    }
}

/// `READ_FROM <path>`: the library only decides; reading the file and
/// re-entering the pipeline per line is the caller's step.
#[derive(Debug)]
pub struct ReadFromCmd {
    filename: String,
}

impl View for ReadFromCmd {
    type V = CommandModel;

    closed spec fn view(&self) -> CommandModel {
        CommandModel::ReadFrom { file: self.filename@ }
    }
}

impl ReadFromCmd {
    pub fn parse_input(input: &str, _context_db: &AnyDatabase) -> (r: Result<
        Self,
        MyDatabaseError,
    >)
        ensures
            (r matches Ok(cmd) && cmd@ == (CommandModel::ReadFrom { file: trim_model(input@) })),
    {
        Ok(ReadFromCmd { filename: trim_str(input).to_owned() })
    }

    pub fn execute(self, db: &mut AnyDatabase, executed_commands: &mut Vec<String>) -> (r: Result<
        CmdOutcome,
        MyDatabaseError,
    >)
        ensures
            (r matches Ok(out) && out@ == OutcomeModel::ReadLines(self@->ReadFrom_file)),
            *final(db) == *old(db),
            *final(executed_commands) == *old(executed_commands),
    {
        Ok(CmdOutcome::ReadLines(self.filename))
    }
}

/// One parsed command of any kind.
#[derive(Debug)]
pub enum AnyCommand {
    CreateTable(CreateTableCmd),
    InsertRecord(InsertRecordCmd),
    DeleteRecord(DeleteRecordCmd),
    Select(SelectCmd),
    SaveAs(SaveAsCmd),
    ReadFrom(ReadFromCmd),
}

impl View for AnyCommand {
    type V = CommandModel;

    open spec fn view(&self) -> CommandModel {
        match self {
            AnyCommand::CreateTable(c) => c@,
            AnyCommand::InsertRecord(c) => c@,
            AnyCommand::DeleteRecord(c) => c@,
            AnyCommand::Select(c) => c@,
            AnyCommand::SaveAs(c) => c@,
            AnyCommand::ReadFrom(c) => c@,
        }
    }
}

impl AnyCommand {
    /// A CREATE command always carries a well-formed field map.
    pub open spec fn wf(&self) -> bool {
        match self {
            AnyCommand::CreateTable(c) => c.wf(),
            _ => true,
        }
    }

    /// Split the leading keyword and route to the right command's parser.
    pub fn parse_input(input: &str, context_db: &AnyDatabase) -> (r: Result<
        AnyCommand,
        MyDatabaseError,
    >)
        ensures
            match r {
                Ok(cmd) => dispatch_parse_model(input@, context_db@) == Ok::<
                    CommandModel,
                    ErrModel,
                >(cmd@) && cmd.wf(),
                Err(e) => dispatch_parse_model(input@, context_db@) == Err::<
                    CommandModel,
                    ErrModel,
                >(e@),
            },
    {
        proof {
            reveal_strlit(" ");
        }
        let t = trim_str(input);
        let (command_type, rest) = match crate::tokenizer::split_once_str(t, " ") {
            Some(p) => p,
            None => {
                return Err(MyDatabaseError::InvalidCommandFormat(String::from_str("UNKNOWN")));
            },
        };
        if str_eq(command_type, "CREATE") {
            match CreateTableCmd::parse_input(rest, context_db) {
                Ok(cmd) => Ok(AnyCommand::CreateTable(cmd)),
                Err(e) => Err(e),
            }
        } else if str_eq(command_type, "INSERT") {
            match InsertRecordCmd::parse_input(rest, context_db) {
                Ok(cmd) => Ok(AnyCommand::InsertRecord(cmd)),
                Err(e) => Err(e),
            }
        } else if str_eq(command_type, "DELETE") {
            match DeleteRecordCmd::parse_input(rest, context_db) {
                Ok(cmd) => Ok(AnyCommand::DeleteRecord(cmd)),
                Err(e) => Err(e),
            }
        } else if str_eq(command_type, "SELECT") {
            match SelectCmd::parse_input(rest, context_db) {
                Ok(cmd) => Ok(AnyCommand::Select(cmd)),
                Err(e) => Err(e),
            }
        } else if str_eq(command_type, "SAVE_AS") {
            match SaveAsCmd::parse_input(rest, context_db) {
                Ok(cmd) => Ok(AnyCommand::SaveAs(cmd)),
                Err(e) => Err(e),
            }
        } else if str_eq(command_type, "READ_FROM") {
            match ReadFromCmd::parse_input(rest, context_db) {
                Ok(cmd) => Ok(AnyCommand::ReadFrom(cmd)),
                Err(e) => Err(e),
            }
        } else {
            Err(MyDatabaseError::InvalidCommandFormat(String::from_str("UNKNOWN")))
        }
    }

    /// Execute a parsed command of any kind.
    pub fn execute(self, db: &mut AnyDatabase, executed_commands: &mut Vec<String>) -> (r: Result<
        CmdOutcome,
        MyDatabaseError,
    >)
        requires
            old(db).wf(),
            self.wf(),
        ensures
            final(db).wf(),
            ({
                let st = exec_model(self@, old(db)@, log_view(old(executed_commands)@));
                &&& final(db)@ == st.db
                &&& log_view(final(executed_commands)@) == st.log
                &&& match r {
                    Ok(out) => st.result == Ok::<OutcomeModel, ErrModel>(out@),
                    Err(e) => st.result == Err::<OutcomeModel, ErrModel>(e@),
                }
            }),
    {
        match self {
            AnyCommand::CreateTable(cmd) => cmd.execute(db, executed_commands),
            AnyCommand::InsertRecord(cmd) => cmd.execute(db, executed_commands),
            AnyCommand::DeleteRecord(cmd) => cmd.execute(db, executed_commands),
            AnyCommand::Select(cmd) => cmd.execute(db, executed_commands),
            AnyCommand::SaveAs(cmd) => cmd.execute(db, executed_commands),
            AnyCommand::ReadFrom(cmd) => cmd.execute(db, executed_commands),
        }
    }

    /// The collaborator interface of the core: parse one command string and
    /// execute it, wrapping a parse failure as `CommandParseError` and an
    /// execute failure as `CommandExecuteError`; on failure the database and
    /// the log are untouched.
    pub fn create_and_execute(
        input: &str,
        context_db: &mut AnyDatabase,
        executed_commands: &mut Vec<String>,
    ) -> (r: Result<CmdOutcome, MyDatabaseError>)
        requires
            old(context_db).wf(),
        ensures
            final(context_db).wf(),
            ({
                let st = step_model(old(context_db)@, log_view(old(executed_commands)@), input@);
                &&& final(context_db)@ == st.db
                &&& log_view(final(executed_commands)@) == st.log
                &&& match r {
                    Ok(out) => st.result == Ok::<OutcomeModel, ErrModel>(out@),
                    Err(e) => st.result == Err::<OutcomeModel, ErrModel>(e@),
                }
            }),
    {
        match AnyCommand::parse_input(input, context_db) {
            Ok(cmd) => {
                match cmd.execute(context_db, executed_commands) {
                    Ok(out) => Ok(out),
                    Err(e) => Err(MyDatabaseError::CommandExecuteError(Box::new(e))),
                }
            },
            Err(e) => Err(MyDatabaseError::CommandParseError(Box::new(e))),
        }
    }
}

} // verus!
