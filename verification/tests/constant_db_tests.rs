use rotom::constant_db::{
    directory_failure, events_file_name, events_json_for_header, is_constants_file_name,
};
use rotom::constant_db::{value_in_i32, SymbolSource};
use rotom::database::{ConstantDb, DatabaseMeta, DatabaseV2, Sound};

/// A symbol table that defines `DEF` as 5 and evaluates an expression by
/// resolving it as one name through the database.
#[derive(Debug, Clone)]
struct OneDefine;

impl SymbolSource for OneDefine {
    fn resolve_constant(&self, name: &str) -> Option<i64> {
        if name == "DEF" {
            Some(5)
        } else {
            None
        }
    }

    fn evaluate_expression(&self, _expr: &str) -> Option<i64> {
        None
    }

    fn define_count(&self) -> usize {
        1
    }

    fn duplicate(&self) -> Self {
        OneDefine
    }

    fn evaluate_with_parent(expr: &str, db: &ConstantDb<Self>) -> Option<i64> {
        db.get_i64(expr)
    }
}

fn db_with_tables() -> DatabaseV2 {
    DatabaseV2 {
        meta: DatabaseMeta {
            version: "platinum".to_string(),
            generated_at: None,
            generated_from: None,
        },
        commands: Vec::new(),
        sounds: vec![
            (
                "1500".to_string(),
                Sound {
                    name: "SEQ_SE_CONFIRM".to_string(),
                    used_in: None,
                },
            ),
            (
                "x".to_string(),
                Sound {
                    name: "SEQ_BROKEN".to_string(),
                    used_in: None,
                },
            ),
        ],
        comparison_operators: vec![
            ("0".to_string(), "LESS".to_string()),
            ("5".to_string(), "NOT/EQUAL".to_string()),
        ],
        overworld_directions: vec![("3".to_string(), "DIR_EAST".to_string())],
        special_overworlds: vec![("253".to_string(), "OBJ_EVENT_GFX_PLAYER".to_string())],
    }
}

#[test]
fn constant_db_new_is_empty() {
    let db = ConstantDb::new();
    assert!(db.is_empty());
    assert_eq!(db.len(), 0);
    assert_eq!(db.get("TRUE"), None);
}

#[test]
fn constant_db_insert_then_get() {
    let mut db = ConstantDb::new();
    db.insert_constant("FOO".to_string(), 7);
    db.insert_constant("BAR".to_string(), -3);
    assert_eq!(db.get("FOO"), Some(7));
    assert_eq!(db.get("BAR"), Some(-3));
    db.insert_constant("FOO".to_string(), 9);
    assert_eq!(db.get("FOO"), Some(9));
    assert_eq!(db.get("BAR"), Some(-3));
    assert_eq!(db.len(), 2);
    assert!(!db.is_empty());
}

#[test]
fn constant_db_load_from_db_counts_and_names() {
    let mut db = ConstantDb::new();
    let count = db.load_from_db(&db_with_tables());
    // TRUE, FALSE, VARS_START, two operators, one direction, one overworld, one sound.
    assert_eq!(count, 8);
    assert_eq!(db.get("TRUE"), Some(1));
    assert_eq!(db.get("FALSE"), Some(0));
    assert_eq!(db.get("VARS_START"), Some(0x4000));
    assert_eq!(db.get("LESS"), Some(0));
    assert_eq!(db.get("NOT_EQUAL"), Some(5));
    assert_eq!(db.get("NOT/EQUAL"), None);
    assert_eq!(db.get("DIR_EAST"), Some(3));
    assert_eq!(db.get("OBJ_EVENT_GFX_PLAYER"), Some(253));
    assert_eq!(db.get("SEQ_SE_CONFIRM"), Some(1500));
    assert_eq!(db.get("SEQ_BROKEN"), None);
    assert_eq!(db.len(), 8);
}

#[test]
fn constant_db_load_id_name_pairs_skips_bad_ids() {
    let mut db = ConstantDb::new();
    let pairs = vec![
        ("1".to_string(), "CONST_ONE".to_string()),
        ("-2".to_string(), "CONST_MINUS_TWO".to_string()),
        ("0x10".to_string(), "CONST_HEX".to_string()),
    ];
    assert_eq!(db.load_id_name_pairs(&pairs), 2);
    assert_eq!(db.get("CONST_ONE"), Some(1));
    assert_eq!(db.get("CONST_MINUS_TWO"), Some(-2));
    assert_eq!(db.get("CONST_HEX"), None);
}

#[test]
fn constant_db_evaluate_expression_without_symbols() {
    let mut db = ConstantDb::new();
    db.load_from_db(&db_with_tables());
    assert_eq!(db.evaluate_expression("   "), None);
    assert_eq!(db.evaluate_expression("VARS_START + 1"), None);
}

#[test]
fn constant_db_with_a_symbol_table() {
    let mut db: ConstantDb<OneDefine> = ConstantDb::empty();
    db.insert_constant("TRUE".to_string(), 1);
    assert_eq!(db.get("DEF"), None);
    assert_eq!(db.len(), 1);
    let count = db.load_decomp_symbols(std::path::PathBuf::from("decomp"), OneDefine);
    assert_eq!(count, 1);
    assert_eq!(db.get("DEF"), Some(5));
    assert_eq!(db.get("TRUE"), Some(1));
    assert_eq!(db.get("NOPE"), None);
    assert_eq!(db.len(), 2);
    assert_eq!(db.evaluate_expression("  TRUE \t"), Some(1));
    assert_eq!(db.evaluate_expression(" DEF"), Some(5));
    assert_eq!(db.evaluate_expression(""), None);
    assert!(db.uxie_symbols().is_some());
    assert_eq!(
        db.uxie_project_root().as_ref().map(|p| p.to_string_lossy().to_string()),
        Some("decomp".to_string())
    );
}

#[test]
fn constants_file_names() {
    assert!(is_constants_file_name("flags.json"));
    assert!(!is_constants_file_name("commands.json"));
    assert!(!is_constants_file_name("platinum_v2.json"));
}

#[test]
fn directory_failure_messages() {
    let errors = vec!["a.json: bad".to_string(), "b.json: worse".to_string()];
    assert_eq!(
        directory_failure("consts", 3, &errors),
        "Failed to load one or more constants JSON files from 'consts'. Loaded 3 constants before failure(s): a.json: bad; b.json: worse"
    );
    let many: Vec<String> = (1..=7).map(|i| format!("e{}", i)).collect();
    assert_eq!(
        directory_failure("d", 0, &many),
        "Failed to load one or more constants JSON files from 'd'. Loaded 0 constants before failure(s): e1; e2; e3; e4; e5; and 2 additional error(s)"
    );
}

#[test]
fn events_file_names() {
    assert_eq!(
        events_file_name("scripts_route_201"),
        Some("events_route_201.json".to_string())
    );
    assert_eq!(events_file_name("route_201"), None);
    assert_eq!(events_file_name("scripts_"), Some("events_.json".to_string()));
}

#[test]
fn events_json_of_headers() {
    assert_eq!(
        events_json_for_header("res/field/events/events_test_map.h"),
        Some("res/field/events/events_test_map.json".to_string())
    );
    assert_eq!(events_json_for_header("not_events.h"), None);
    assert_eq!(events_json_for_header("res/field/events/events_test_map.c"), None);
}

#[test]
fn evaluated_values_outside_i32_give_nothing() {
    assert_eq!(value_in_i32(Some(5)), Some(5));
    assert_eq!(value_in_i32(Some(-7)), Some(-7));
    assert_eq!(value_in_i32(Some(i32::MAX as i64)), Some(i32::MAX));
    assert_eq!(value_in_i32(Some(i32::MIN as i64)), Some(i32::MIN));
    assert_eq!(value_in_i32(Some(1i64 << 40)), None);
    assert_eq!(value_in_i32(Some(i32::MIN as i64 - 1)), None);
    assert_eq!(value_in_i32(None), None);
}
