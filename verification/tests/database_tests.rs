use rotom::database::{
    normalize_command_name, Command, CommandType, ComparisonOperator, DatabaseMeta, DatabaseV2,
    Direction, ParamType,
};

fn test_command(cmd_type: CommandType, id: u16, legacy_name: Option<&str>) -> Command {
    Command {
        cmd_type,
        id: Some(id),
        legacy_name: legacy_name.map(std::string::ToString::to_string),
        description: None,
        params: Vec::new(),
        variants: None,
        expansion: None,
    }
}

fn test_db_for_legacy_lookup_with_version(version: &str) -> DatabaseV2 {
    let mut commands = Vec::new();
    commands.push((
        "Message".to_string(),
        test_command(CommandType::ScriptCmd, 1, Some("MessageLegacy")),
    ));
    commands.push((
        "WalkUp".to_string(),
        test_command(CommandType::Movement, 2, Some("WalkUpLegacy")),
    ));
    commands.push((
        "RadixTest".to_string(),
        test_command(CommandType::ScriptCmd, 16, Some("RadixTestLegacy")),
    ));

    DatabaseV2 {
        meta: DatabaseMeta {
            version: version.to_string(),
            generated_at: None,
            generated_from: None,
        },
        commands,
        sounds: Vec::new(),
        comparison_operators: Vec::new(),
        overworld_directions: Vec::new(),
        special_overworlds: Vec::new(),
    }
}

fn test_db_for_legacy_lookup() -> DatabaseV2 {
    test_db_for_legacy_lookup_with_version("test")
}

#[test]
fn test_comparison_operators() {
    assert_eq!(
        ComparisonOperator::from_id(0),
        Some(ComparisonOperator::Less)
    );
    assert_eq!(
        ComparisonOperator::from_id(1),
        Some(ComparisonOperator::Equal)
    );
    assert_eq!(
        ComparisonOperator::from_id(5),
        Some(ComparisonOperator::Different)
    );
    assert_eq!(ComparisonOperator::from_id(6), None);
}

#[test]
fn test_direction() {
    assert_eq!(Direction::from_id(0), Some(Direction::Up));
    assert_eq!(Direction::from_id(3), Some(Direction::Right));
    assert_eq!(Direction::from_id(4), None);
}

#[test]
fn test_param_size() {
    assert_eq!(ParamType::U8.size(), 1);
    assert_eq!(ParamType::U16.size(), 2);
    assert_eq!(ParamType::U32.size(), 4);
    assert_eq!(ParamType::Label.size(), 4);
    assert_eq!(ParamType::Var.size(), 2);
}

#[test]
fn test_normalize_command_name() {
    assert_eq!(normalize_command_name("GoToIf"), "gotoif");
    assert_eq!(normalize_command_name("goto_if"), "gotoif");
    assert_eq!(normalize_command_name("APPLY_MOVEMENT"), "applymovement");
}

#[test]
fn test_get_command_resolves_legacy_name() {
    let db = test_db_for_legacy_lookup();
    let cmd = db
        .get_command("MessageLegacy")
        .expect("legacy lookup failed");
    assert_eq!(cmd.id, Some(1));
    assert_eq!(cmd.cmd_type, CommandType::ScriptCmd);
}

#[test]
fn test_get_command_resolves_platinum_scrcmd_hex_alias() {
    let db = test_db_for_legacy_lookup_with_version("platinum");
    let cmd = db
        .get_command("ScrCmd_0010")
        .expect("hex scrcmd lookup failed");
    assert_eq!(cmd.id, Some(16));
    assert_eq!(cmd.cmd_type, CommandType::ScriptCmd);
}

#[test]
fn test_get_command_resolves_hgss_scrcmd_decimal_alias() {
    let db = test_db_for_legacy_lookup_with_version("hgss");
    let cmd = db
        .get_command("ScrCmd_16")
        .expect("decimal scrcmd lookup failed");
    assert_eq!(cmd.id, Some(16));
    assert_eq!(cmd.cmd_type, CommandType::ScriptCmd);
}

#[test]
fn test_get_command_rejects_wrong_scrcmd_radix_for_family() {
    let platinum = test_db_for_legacy_lookup_with_version("platinum");
    let hgss = test_db_for_legacy_lookup_with_version("hgss");

    assert!(
        platinum.get_command("ScrCmd_10").is_ok(),
        "platinum accepts hex-compatible ScrCmd aliases"
    );
    assert!(
        hgss.get_command("ScrCmd_000A").is_err(),
        "hgss ScrCmd aliases must be decimal"
    );
    assert!(
        hgss.get_command("ScrCmd_0001").is_ok(),
        "hgss decimal aliases may contain leading zeroes"
    );
}

#[test]
fn test_get_command_resolves_scrcmd_key_style_with_suffix_text() {
    let db = test_db_for_legacy_lookup_with_version("platinum");
    let cmd = db
        .get_command("ScrCmd_Unused_001")
        .expect("ScrCmd_*_<hex> alias lookup failed");
    assert_eq!(cmd.id, Some(1));
    assert_eq!(cmd.cmd_type, CommandType::ScriptCmd);
}

#[test]
fn test_get_command_resolves_dummy_alias() {
    let db = test_db_for_legacy_lookup();
    let cmd = db
        .get_command("Dummy0001")
        .expect("Dummy alias lookup failed");
    assert_eq!(cmd.id, Some(1));
    assert_eq!(cmd.cmd_type, CommandType::ScriptCmd);
}

#[test]
fn test_get_command_resolves_hgss_decimal_dummy_alias() {
    let db = test_db_for_legacy_lookup_with_version("hgss");
    let cmd = db
        .get_command("Dummy16")
        .expect("hgss decimal dummy alias lookup failed");
    assert_eq!(cmd.id, Some(16));
    assert_eq!(cmd.cmd_type, CommandType::ScriptCmd);
}

#[test]
fn test_get_script_cmd_resolves_legacy_name() {
    let db = test_db_for_legacy_lookup();
    let cmd = db
        .get_script_cmd("MessageLegacy")
        .expect("legacy script command lookup failed");
    assert_eq!(cmd.id, Some(1));
    assert_eq!(cmd.cmd_type, CommandType::ScriptCmd);
}

#[test]
fn test_get_script_cmd_resolves_aliases() {
    let db = test_db_for_legacy_lookup_with_version("hgss");
    let cmd = db
        .get_script_cmd("ScrCmd_1")
        .expect("script command alias lookup failed");
    assert_eq!(cmd.id, Some(1));
    assert_eq!(cmd.cmd_type, CommandType::ScriptCmd);
}

#[test]
fn test_get_script_cmd_by_alias_does_not_override_exact_script_cmd_name() {
    let mut db = test_db_for_legacy_lookup_with_version("hgss");
    db.insert_command(
        "ScrCmd_055".to_string(),
        test_command(CommandType::ScriptCmd, 56, None),
    );
    db.insert_command(
        "DirectionSignpost".to_string(),
        test_command(CommandType::ScriptCmd, 55, None),
    );

    assert!(
        db.get_script_cmd_by_alias("ScrCmd_055").is_none(),
        "exact script command keys must not be reinterpreted as aliases"
    );
}

#[test]
fn test_get_movement_resolves_legacy_name() {
    let db = test_db_for_legacy_lookup();
    let cmd = db
        .get_movement("WalkUpLegacy")
        .expect("legacy movement lookup failed");
    assert_eq!(cmd.id, Some(2));
    assert_eq!(cmd.cmd_type, CommandType::Movement);
}
