use minidb::commands::{AnyCommand, CmdOutcome};
use minidb::errors::MyDatabaseError;
use minidb::storage::{AnyDatabase, Database, SelectOutput};
use minidb::strmap::{Record, StrKeyMap};
use minidb::values::{Value, ValueType};
use minidb::where_parsing::WhereClause;

fn int_db() -> AnyDatabase {
    AnyDatabase::IntDatabase(Database::new())
}

fn run(db: &mut AnyDatabase, log: &mut Vec<String>, cmd: &str) -> Result<CmdOutcome, MyDatabaseError> {
    AnyCommand::create_and_execute(cmd, db, log)
}

fn run_ok(db: &mut AnyDatabase, log: &mut Vec<String>, cmd: &str) -> CmdOutcome {
    match run(db, log, cmd) {
        Ok(out) => out,
        Err(e) => panic!("command failed: {} -> {}", cmd, e.message()),
    }
}

fn select_rows(db: &mut AnyDatabase, log: &mut Vec<String>, cmd: &str) -> SelectOutput {
    match run_ok(db, log, cmd) {
        CmdOutcome::Rows(out) => out,
        _ => panic!("expected rows"),
    }
}

#[test]
fn value_round_trip_int() {
    for raw in ["42", "-17", "0", "9223372036854775807", "-9223372036854775808"] {
        let v = ValueType::Int.get_value(raw).unwrap();
        let text = v.to_text();
        assert_eq!(text, raw.trim());
        let again = ValueType::Int.get_value(text.as_str()).unwrap();
        assert_eq!(v, again);
    }
}

#[test]
fn value_round_trip_bool_and_string() {
    for raw in ["true", "FALSE", "True"] {
        let v = ValueType::Bool.get_value(raw).unwrap();
        let again = ValueType::Bool.get_value(v.to_text().as_str()).unwrap();
        assert_eq!(v, again);
    }
    for raw in ["hello", "  padded  ", "a b c"] {
        let v = ValueType::String.get_value(raw).unwrap();
        let again = ValueType::String.get_value(v.to_text().as_str()).unwrap();
        assert_eq!(v, again);
    }
}

#[test]
fn value_round_trip_float() {
    for raw in ["10.5", "-2.25", "0", "77.99", "1e3"] {
        let v = ValueType::Float.get_value(raw).unwrap();
        let text = v.to_text();
        let again = ValueType::Float.get_value(text.as_str()).unwrap();
        assert_eq!(v, again);
    }
    let v = ValueType::Float.get_value("10.5").unwrap();
    assert_eq!(v, Value::Float((10.5f64).to_bits()));
}

#[test]
fn value_parse_failures() {
    assert!(matches!(
        ValueType::Int.get_value("abc"),
        Err(MyDatabaseError::InvalidFieldValue)
    ));
    assert!(matches!(
        ValueType::Bool.get_value("yes"),
        Err(MyDatabaseError::InvalidFieldValue)
    ));
    assert!(matches!(
        ValueType::Float.get_value("ten"),
        Err(MyDatabaseError::InvalidFieldValue)
    ));
}

#[test]
fn value_comparisons() {
    assert!(Value::Int(2).is_equal_to(&Value::Float((2.0f64).to_bits())));
    assert!(!Value::Int(2).is_equal_to(&Value::Float((2.5f64).to_bits())));
    assert!(!Value::Bool(true).is_equal_to(&Value::Int(1)));
    assert_eq!(
        Value::Float((2.5f64).to_bits())
            .is_bigger_than(&Value::Float((1.5f64).to_bits()))
            .unwrap(),
        true
    );
    assert_eq!(
        Value::String("b".to_string())
            .is_bigger_than(&Value::String("a".to_string()))
            .unwrap(),
        true
    );
    assert!(matches!(
        Value::Bool(true).is_bigger_than(&Value::Bool(false)),
        Err(MyDatabaseError::CannotCompareValues)
    ));
}

#[test]
fn insert_then_select_all() {
    let mut db = int_db();
    let mut log = Vec::new();
    run_ok(&mut db, &mut log, "CREATE t KEY a FIELDS a:Int, b:String");
    run_ok(&mut db, &mut log, "INSERT a=7, b=\"seven\" INTO t");
    let out = select_rows(&mut db, &mut log, "SELECT * FROM t");
    assert_eq!(out.header, vec!["a".to_string(), "b".to_string()]);
    assert_eq!(out.rows.len(), 1);
    assert_eq!(out.rows[0], vec![Value::Int(7), Value::String("seven".to_string())]);
}

#[test]
fn insert_duplicate_key_rejected() {
    let mut db = int_db();
    let mut log = Vec::new();
    run_ok(&mut db, &mut log, "CREATE t KEY a FIELDS a:Int, b:String");
    run_ok(&mut db, &mut log, "INSERT a=1, b=\"x\" INTO t");
    let err = run(&mut db, &mut log, "INSERT a=1, b=\"y\" INTO t").unwrap_err();
    match err {
        MyDatabaseError::CommandExecuteError(inner) => {
            assert!(matches!(*inner, MyDatabaseError::RecordAlreadyExists));
        }
        other => panic!("unexpected error: {}", other.message()),
    }
    let out = select_rows(&mut db, &mut log, "SELECT * FROM t");
    assert_eq!(out.rows.len(), 1);
    assert_eq!(out.rows[0], vec![Value::Int(1), Value::String("x".to_string())]);
}

#[test]
fn where_precedence_and_binds_tighter() {
    let mut db = int_db();
    let mut log = Vec::new();
    run_ok(&mut db, &mut log, "CREATE t KEY id FIELDS id:Int, a:Int, b:Int, c:Int");
    // rows chosen so the two groupings disagree
    run_ok(&mut db, &mut log, "INSERT id=1, a=1, b=0, c=0 INTO t");
    run_ok(&mut db, &mut log, "INSERT id=2, a=0, b=2, c=3 INTO t");
    run_ok(&mut db, &mut log, "INSERT id=3, a=0, b=2, c=0 INTO t");
    let out = select_rows(&mut db, &mut log, "SELECT id FROM t WHERE a = 1 OR b = 2 AND c = 3");
    // with AND binding tighter: row 1 (a=1) and row 2 (b=2 AND c=3) survive;
    // under the other grouping row 1 would fail on c
    assert_eq!(out.rows.len(), 2);
    assert_eq!(out.rows[0], vec![Value::Int(1)]);
    assert_eq!(out.rows[1], vec![Value::Int(2)]);
}

#[test]
fn where_division_by_zero_fails_whole_select() {
    let mut db = int_db();
    let mut log = Vec::new();
    run_ok(&mut db, &mut log, "CREATE t KEY x FIELDS x:Int");
    run_ok(&mut db, &mut log, "INSERT x=4 INTO t");
    run_ok(&mut db, &mut log, "INSERT x=9 INTO t");
    let err = run(&mut db, &mut log, "SELECT * FROM t WHERE x / 0 > 1").unwrap_err();
    match err {
        MyDatabaseError::CommandExecuteError(inner) => {
            assert!(matches!(*inner, MyDatabaseError::DivisionByZero));
        }
        other => panic!("unexpected error: {}", other.message()),
    }
}

#[test]
fn save_then_replay_reproduces_state() {
    let mut db = int_db();
    let mut log = Vec::new();
    run_ok(&mut db, &mut log, "CREATE t KEY a FIELDS a:Int, b:Float");
    run_ok(&mut db, &mut log, "INSERT a=2, b=2.5 INTO t");
    run_ok(&mut db, &mut log, "INSERT a=1, b=-0.5 INTO t");
    run_ok(&mut db, &mut log, "DELETE 2 FROM t");
    run_ok(&mut db, &mut log, "INSERT a=3, b=9.75 INTO t");
    match run_ok(&mut db, &mut log, "SAVE_AS backup.mdb") {
        CmdOutcome::SaveTo(path) => assert_eq!(path, "backup.mdb"),
        _ => panic!("expected a save request"),
    }
    // replay the log into a fresh database of the same key type
    let saved = log.clone();
    let mut db2 = int_db();
    let mut log2 = Vec::new();
    for line in &saved {
        run_ok(&mut db2, &mut log2, line.as_str());
    }
    let out1 = select_rows(&mut db, &mut log, "SELECT * FROM t");
    let out2 = select_rows(&mut db2, &mut log2, "SELECT * FROM t");
    assert_eq!(out1.header, out2.header);
    assert_eq!(out1.rows, out2.rows);
    assert_eq!(out1.rows.len(), 2);
}

#[test]
fn bracket_mismatches() {
    let mut db = int_db();
    let mut log = Vec::new();
    run_ok(&mut db, &mut log, "CREATE t KEY a FIELDS a:Int");
    run_ok(&mut db, &mut log, "INSERT a=1 INTO t");
    let err = run(&mut db, &mut log, "SELECT * FROM t WHERE (a = 1").unwrap_err();
    match err {
        MyDatabaseError::CommandParseError(inner) => match *inner {
            MyDatabaseError::InvalidWhereClauseFormat(msg) => {
                assert_eq!(msg, "Closing bracket missing");
            }
            other => panic!("unexpected inner error: {}", other.message()),
        },
        other => panic!("unexpected error: {}", other.message()),
    }
    let err = run(&mut db, &mut log, "SELECT * FROM t WHERE a = 1)").unwrap_err();
    match err {
        MyDatabaseError::CommandParseError(inner) => match *inner {
            MyDatabaseError::InvalidWhereClauseFormat(msg) => {
                assert_eq!(msg, "Opening bracket missing");
            }
            other => panic!("unexpected inner error: {}", other.message()),
        },
        other => panic!("unexpected error: {}", other.message()),
    }
    // balanced brackets parse and the sub-expression groups as written
    let out = select_rows(&mut db, &mut log, "SELECT * FROM t WHERE (a = 1)");
    assert_eq!(out.rows.len(), 1);
}

#[test]
fn accounts_scenario() {
    let mut db = int_db();
    let mut log = Vec::new();
    run_ok(
        &mut db,
        &mut log,
        "CREATE accounts KEY id FIELDS id:Int, name:String, balance:Float",
    );
    run_ok(
        &mut db,
        &mut log,
        "INSERT id=1, name=\"Alice\", balance=10.5 INTO accounts",
    );
    let out = select_rows(
        &mut db,
        &mut log,
        "SELECT * FROM accounts WHERE balance > 5 AND name != \"Bob\"",
    );
    assert_eq!(
        out.header,
        vec!["id".to_string(), "name".to_string(), "balance".to_string()]
    );
    assert_eq!(out.rows.len(), 1);
    assert_eq!(
        out.rows[0],
        vec![
            Value::Int(1),
            Value::String("Alice".to_string()),
            Value::Float((10.5f64).to_bits()),
        ]
    );
    assert_eq!(out.rows[0][2].to_text(), "10.5");
}

#[test]
fn command_errors() {
    let mut db = int_db();
    let mut log = Vec::new();
    // unknown keyword
    let err = run(&mut db, &mut log, "FROB x y").unwrap_err();
    assert!(matches!(
        err,
        MyDatabaseError::CommandParseError(ref b)
            if matches!(**b, MyDatabaseError::InvalidCommandFormat(_))
    ));
    // unknown table
    let err = run(&mut db, &mut log, "SELECT * FROM missing").unwrap_err();
    assert!(matches!(
        err,
        MyDatabaseError::CommandParseError(ref b)
            if matches!(**b, MyDatabaseError::TableNotFound(_))
    ));
    // a key column of a type the integer-keyed database refuses
    let err = run(&mut db, &mut log, "CREATE t KEY a FIELDS a:Float").unwrap_err();
    assert!(matches!(
        err,
        MyDatabaseError::CommandExecuteError(ref b)
            if matches!(**b, MyDatabaseError::InvalidKeyType)
    ));
    // a bad field type name
    let err = run(&mut db, &mut log, "CREATE t KEY a FIELDS a:Number").unwrap_err();
    assert!(matches!(
        err,
        MyDatabaseError::CommandParseError(ref b)
            if matches!(**b, MyDatabaseError::InvalidFieldType)
    ));
    run_ok(&mut db, &mut log, "CREATE t KEY a FIELDS a:Int, b:Int");
    // a bad value for the declared type
    let err = run(&mut db, &mut log, "INSERT a=zzz, b=1 INTO t").unwrap_err();
    assert!(matches!(
        err,
        MyDatabaseError::CommandParseError(ref b)
            if matches!(**b, MyDatabaseError::InvalidFieldValue)
    ));
    // an unknown column
    let err = run(&mut db, &mut log, "INSERT a=1, c=2 INTO t").unwrap_err();
    assert!(matches!(
        err,
        MyDatabaseError::CommandParseError(ref b)
            if matches!(**b, MyDatabaseError::InvalidFieldName)
    ));
    // the same column twice
    let err = run(&mut db, &mut log, "INSERT a=1, a=2 INTO t").unwrap_err();
    assert!(matches!(
        err,
        MyDatabaseError::CommandParseError(ref b)
            if matches!(**b, MyDatabaseError::DuplicateColumnName)
    ));
    // a missing column set
    let err = run(&mut db, &mut log, "INSERT a=1 INTO t").unwrap_err();
    assert!(matches!(
        err,
        MyDatabaseError::CommandExecuteError(ref b)
            if matches!(**b, MyDatabaseError::KeysMismatch)
    ));
    // deleting an absent key
    let err = run(&mut db, &mut log, "DELETE 5 FROM t").unwrap_err();
    assert!(matches!(
        err,
        MyDatabaseError::CommandExecuteError(ref b)
            if matches!(**b, MyDatabaseError::KeyNotFound)
    ));
    // the table name is taken
    run_ok(&mut db, &mut log, "INSERT a=1, b=2 INTO t");
    let err = run(&mut db, &mut log, "CREATE t KEY a FIELDS a:Int").unwrap_err();
    assert!(matches!(
        err,
        MyDatabaseError::CommandExecuteError(ref b)
            if matches!(**b, MyDatabaseError::TableAlreadyExists(_))
    ));
    // AND over non-booleans
    let err = run(&mut db, &mut log, "SELECT * FROM t WHERE a AND b").unwrap_err();
    assert!(matches!(
        err,
        MyDatabaseError::CommandExecuteError(ref b)
            if matches!(**b, MyDatabaseError::InvalidLogicalOperation)
    ));
    // arithmetic over non-numbers
    let err = run(&mut db, &mut log, "SELECT * FROM t WHERE a + true = 2").unwrap_err();
    assert!(matches!(
        err,
        MyDatabaseError::CommandExecuteError(ref b)
            if matches!(**b, MyDatabaseError::InvalidMathOperation)
    ));
    // ordering bools has no order
    let err = run(&mut db, &mut log, "SELECT * FROM t WHERE true > false").unwrap_err();
    assert!(matches!(
        err,
        MyDatabaseError::CommandExecuteError(ref b)
            if matches!(**b, MyDatabaseError::CannotCompareValues)
    ));
    // a clause that leaves no boolean behind
    let err = run(&mut db, &mut log, "SELECT * FROM t WHERE a").unwrap_err();
    assert!(matches!(
        err,
        MyDatabaseError::CommandExecuteError(ref b)
            if matches!(**b, MyDatabaseError::WronglyParsedClause(_))
    ));
    // an unknown token in a clause
    let err = run(&mut db, &mut log, "SELECT * FROM t WHERE zz = 1").unwrap_err();
    assert!(matches!(
        err,
        MyDatabaseError::CommandParseError(ref b)
            if matches!(**b, MyDatabaseError::InvalidWhereClauseFormat(_))
    ));
}

#[test]
fn string_keyed_database() {
    let mut db = AnyDatabase::StringDatabase(Database::new());
    let mut log = Vec::new();
    run_ok(&mut db, &mut log, "CREATE users KEY name FIELDS name:String, age:Int");
    run_ok(&mut db, &mut log, "INSERT name=\"zoe\", age=30 INTO users");
    run_ok(&mut db, &mut log, "INSERT name=\"adam\", age=40 INTO users");
    // records come back in ascending key order
    let out = select_rows(&mut db, &mut log, "SELECT name FROM users");
    assert_eq!(out.rows.len(), 2);
    assert_eq!(out.rows[0], vec![Value::String("adam".to_string())]);
    assert_eq!(out.rows[1], vec![Value::String("zoe".to_string())]);
    run_ok(&mut db, &mut log, "DELETE adam FROM users");
    let out = select_rows(&mut db, &mut log, "SELECT name FROM users");
    assert_eq!(out.rows.len(), 1);
    assert_eq!(out.rows[0], vec![Value::String("zoe".to_string())]);
}

#[test]
fn where_arithmetic_on_floats() {
    // each arithmetic wrapper is exercised through the clause evaluator
    let mut schema: StrKeyMap<ValueType> = StrKeyMap::new();
    schema.set("x".to_string(), ValueType::Float);
    let mut values: StrKeyMap<Value> = StrKeyMap::new();
    assert!(values.try_insert("x".to_string(), Value::Float((1.5f64).to_bits())));
    let rec = Record::from_values(values);
    for (clause, expect) in [
        ("x + 2.5 = 4", true),
        ("x - 0.5 = 1", true),
        ("x * 2 = 3", true),
        ("x / 2 = 0.75", true),
        ("x + 1 > 3", false),
        ("x >= 1.5", true),
        ("x <= 1", false),
        ("x != 1.5", false),
    ] {
        let w = WhereClause::create_from_string(clause, &schema).unwrap();
        assert_eq!(w.evaluate_for_record(&rec).unwrap(), expect, "clause: {}", clause);
    }
}

#[test]
fn where_string_and_bool_literals() {
    let mut schema: StrKeyMap<ValueType> = StrKeyMap::new();
    schema.set("name".to_string(), ValueType::String);
    schema.set("ok".to_string(), ValueType::Bool);
    let mut values: StrKeyMap<Value> = StrKeyMap::new();
    assert!(values.try_insert("name".to_string(), Value::String("a b".to_string())));
    assert!(values.try_insert("ok".to_string(), Value::Bool(true)));
    let rec = Record::from_values(values);
    for (clause, expect) in [
        ("name = \"a b\"", true),
        ("name != \"c\"", true),
        ("name > \"a\"", true),
        ("ok = TRUE", true),
        ("ok = false OR name = \"a b\"", true),
        ("(ok = false) AND name = \"a b\"", false),
    ] {
        let w = WhereClause::create_from_string(clause, &schema).unwrap();
        assert_eq!(w.evaluate_for_record(&rec).unwrap(), expect, "clause: {}", clause);
    }
}

#[test]
fn error_messages_render() {
    let e = MyDatabaseError::TableNotFound("abc".to_string());
    assert_eq!(e.message(), "Table 'abc' not found in database");
    let wrapped = MyDatabaseError::CommandParseError(Box::new(MyDatabaseError::InvalidFieldValue));
    assert_eq!(
        wrapped.message(),
        "Error parsing command: Invalid field value for the specified type"
    );
}

#[test]
fn tokenizer_splits() {
    let parts = minidb::tokenizer::split_preserving_quote_insides(
        "k1 = 5, k2 = \"Rybki, akwarium\", k3 = false",
        ',',
    );
    assert_eq!(parts, vec!["k1 = 5", "k2 = \"Rybki, akwarium\"", "k3 = false"]);
    let pair = minidb::tokenizer::split_once_skipping_outside_quotes("a = \" x \"", '=');
    assert_eq!(pair, Some(("a", " x ")));
    let ops = [">=", "=", "("];
    let toks = minidb::tokenizer::split_by_operators_preserving_quotes("a>=(b = \"c=d\")", &ops);
    assert_eq!(toks, vec!["a", ">=", "(", "b", "=", "\"c=d\")"]);
}

#[test]
fn read_from_hands_back_the_path() {
    let mut db = int_db();
    let mut log = Vec::new();
    match run_ok(&mut db, &mut log, "READ_FROM saved/commands.mdb") {
        CmdOutcome::ReadLines(path) => assert_eq!(path, "saved/commands.mdb"),
        _ => panic!("expected a read request"),
    }
    // the file commands themselves are not logged
    assert!(log.is_empty());
}

#[test]
fn log_holds_exactly_the_successful_data_commands() {
    let mut db = int_db();
    let mut log = Vec::new();
    run_ok(&mut db, &mut log, "CREATE t KEY a FIELDS a:Int");
    let _ = run(&mut db, &mut log, "INSERT a=oops INTO t");
    run_ok(&mut db, &mut log, "INSERT a=1 INTO t");
    let _ = run(&mut db, &mut log, "DELETE 9 FROM t");
    run_ok(&mut db, &mut log, "SELECT * FROM t");
    assert_eq!(
        log,
        vec![
            "CREATE t KEY a FIELDS a:Int".to_string(),
            "INSERT a=1 INTO t".to_string(),
            "SELECT * FROM t".to_string(),
        ]
    );
}
