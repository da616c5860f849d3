use rotom::decompiler::levelscript::{
    LevelScript, LevelScriptHeaderEntry, LevelScriptValidationError, LevelScriptVarConditionEntry,
    ENTRY_END, ON_FRAME_TABLE, ON_RESUME, ON_TRANSITION,
};

#[test]
fn test_empty_levelscript_roundtrip() {
    let ls = LevelScript::new();
    let bytes = ls.to_bytes();
    assert_eq!(bytes, vec![0, 0, 0, 0]);

    let parsed = LevelScript::from_bytes(&bytes).unwrap();
    assert!(parsed.is_empty());
}

#[test]
fn test_simple_levelscript_roundtrip() {
    let mut ls = LevelScript::new();
    ls.header_entries
        .push(LevelScriptHeaderEntry::OnTransition { script_id: 1 });
    ls.header_entries
        .push(LevelScriptHeaderEntry::OnLoad { script_id: 2 });

    let bytes = ls.to_bytes();
    let parsed = LevelScript::from_bytes(&bytes).unwrap();

    assert_eq!(parsed.header_entries.len(), 2);
    assert!(matches!(
        &parsed.header_entries[0],
        LevelScriptHeaderEntry::OnTransition { script_id: 1 }
    ));
    assert!(matches!(
        &parsed.header_entries[1],
        LevelScriptHeaderEntry::OnLoad { script_id: 2 }
    ));
}

#[test]
fn test_var_equals_roundtrip() {
    let mut ls = LevelScript::new();
    ls.header_entries
        .push(LevelScriptHeaderEntry::OnTransition { script_id: 1 });
    ls.header_entries
        .push(LevelScriptHeaderEntry::OnVarCondition);
    ls.var_conditions.push(LevelScriptVarConditionEntry {
        var: 0x411A,
        value: 1,
        script_id: 29,
    });
    ls.var_conditions.push(LevelScriptVarConditionEntry {
        var: 0x4000,
        value: 5,
        script_id: 3,
    });

    let bytes = ls.to_bytes();
    let parsed = LevelScript::from_bytes(&bytes).unwrap();

    assert_eq!(parsed.var_conditions.len(), 2);
    assert!(parsed.has_var_conditions());
}

#[test]
fn test_all_entry_types() {
    let mut ls = LevelScript::new();
    ls.header_entries
        .push(LevelScriptHeaderEntry::OnTransition { script_id: 1 });
    ls.header_entries
        .push(LevelScriptHeaderEntry::OnLoad { script_id: 2 });
    ls.header_entries
        .push(LevelScriptHeaderEntry::OnResume { script_id: 3 });

    let bytes = ls.to_bytes();
    let parsed = LevelScript::from_bytes(&bytes).unwrap();

    assert_eq!(parsed.header_entries.len(), 3);
}

#[test]
fn test_binary_alignment() {
    let mut ls = LevelScript::new();
    ls.header_entries
        .push(LevelScriptHeaderEntry::OnTransition { script_id: 1 });

    let bytes = ls.to_bytes();
    assert_eq!(bytes.len() % 4, 0);

    ls.header_entries
        .push(LevelScriptHeaderEntry::OnVarCondition);
    ls.var_conditions.push(LevelScriptVarConditionEntry {
        var: 0x4000,
        value: 1,
        script_id: 5,
    });

    let bytes = ls.to_bytes();
    assert_eq!(bytes.len() % 4, 0);
}

#[test]
fn test_preserves_padding_beyond_normal_alignment() {
    let bytes = vec![
        ON_RESUME,
        0x4C,
        0x26,
        0x00,
        0x00,
        ON_TRANSITION,
        0x4A,
        0x26,
        0x00,
        0x00,
        ENTRY_END,
        0x00,
        0x00,
        0x00,
        0x00,
        0x00,
    ];

    let parsed = LevelScript::from_bytes(&bytes).unwrap();
    assert_eq!(parsed.padding, 4);
    assert_eq!(parsed.to_bytes(), bytes);
}

#[test]
fn test_preserves_frame_table_header_order_before_other_entries() {
    let bytes = vec![
        ON_FRAME_TABLE,
        0x0B,
        0x00,
        0x00,
        0x00,
        ON_RESUME,
        0x0C,
        0x00,
        0x00,
        0x00,
        ON_TRANSITION,
        0x1A,
        0x00,
        0x00,
        0x00,
        ENTRY_END,
        0xF7,
        0x40,
        0x01,
        0x00,
        0xA7,
        0x28,
        0x00,
        0x00,
    ];

    let parsed = LevelScript::from_bytes(&bytes).unwrap();
    assert_eq!(parsed.to_bytes(), bytes);
    assert!(matches!(
        parsed.header_entries.first(),
        Some(LevelScriptHeaderEntry::OnVarCondition)
    ));
}

#[test]
fn test_preserves_empty_var_conditions_binary() {
    let bytes = vec![0x01, 0x01, 0x00, 0x00, 0x00, 0x00, 0x00, 0x00];

    let parsed = LevelScript::from_bytes(&bytes).unwrap();
    assert_eq!(parsed.header_entries.len(), 1);
    assert!(matches!(
        parsed.header_entries[0],
        LevelScriptHeaderEntry::OnVarCondition
    ));
    assert!(parsed.var_conditions.is_empty());
    assert_eq!(parsed.to_bytes(), bytes);
}

#[test]
fn empty_slice_parses_as_empty_levelscript() {
    let parsed = LevelScript::from_bytes(&[]).unwrap();

    assert!(parsed.is_empty());
    assert_eq!(parsed.to_bytes(), vec![0, 0, 0, 0]);
}

#[test]
fn rejects_truncated_header_entries() {
    assert_eq!(
        LevelScript::from_bytes(&[ON_TRANSITION, 1]).unwrap_err(),
        "Levelscript: ON_TRANSITION truncated"
    );
    assert_eq!(
        LevelScript::from_bytes(&[ON_FRAME_TABLE, 1, 0]).unwrap_err(),
        "Levelscript: ON_FRAME_TABLE truncated"
    );
}

#[test]
fn rejects_unknown_command_byte() {
    let err = LevelScript::from_bytes(&[0x99, 0, 0, 0]).unwrap_err();

    assert_eq!(err, "Levelscript: Unknown command byte 0x99 at offset 0");
}

#[test]
fn rejects_truncated_var_condition_entry() {
    let bytes = vec![
        ON_FRAME_TABLE,
        0x01,
        0x00,
        0x00,
        0x00,
        ENTRY_END,
        0x34,
        0x12,
        0x01,
        0x00,
    ];

    assert_eq!(
        LevelScript::from_bytes(&bytes).unwrap_err(),
        "Levelscript: Var-condition entry truncated"
    );
}

#[test]
fn validate_rejects_zero_var() {
    let mut ls = LevelScript::new();
    ls.header_entries
        .push(LevelScriptHeaderEntry::OnVarCondition);
    ls.var_conditions.push(LevelScriptVarConditionEntry {
        var: 0,
        value: 1,
        script_id: 5,
    });

    assert_eq!(
        ls.validate(),
        Err(LevelScriptValidationError::ZeroVarInCondition { index: 0 })
    );
}

#[test]
fn validate_accepts_nonzero_vars() {
    let mut ls = LevelScript::new();
    ls.header_entries
        .push(LevelScriptHeaderEntry::OnVarCondition);
    ls.var_conditions.push(LevelScriptVarConditionEntry {
        var: 1,
        value: 1,
        script_id: 5,
    });
    ls.var_conditions.push(LevelScriptVarConditionEntry {
        var: 0x4000,
        value: 5,
        script_id: 3,
    });

    ls.validate().unwrap();
}

#[test]
fn validate_rejects_conditions_without_header() {
    let mut ls = LevelScript::new();
    ls.var_conditions.push(LevelScriptVarConditionEntry {
        var: 0x4000,
        value: 1,
        script_id: 5,
    });

    assert_eq!(
        ls.validate(),
        Err(LevelScriptValidationError::ConditionsWithoutHeader { condition_count: 1 })
    );
}

#[test]
fn validate_rejects_duplicate_on_var_condition() {
    let mut ls = LevelScript::new();
    ls.header_entries
        .push(LevelScriptHeaderEntry::OnVarCondition);
    ls.header_entries
        .push(LevelScriptHeaderEntry::OnVarCondition);

    assert_eq!(
        ls.validate(),
        Err(LevelScriptValidationError::DuplicateOnVarCondition { count: 2 })
    );
}

#[test]
fn validate_accepts_empty_on_var_condition_header() {
    let mut ls = LevelScript::new();
    ls.header_entries
        .push(LevelScriptHeaderEntry::OnVarCondition);

    ls.validate().unwrap();
    assert_eq!(
        ls.to_bytes(),
        vec![ON_FRAME_TABLE, 0x01, 0, 0, 0, 0, 0, 0]
    );
}

#[test]
fn validate_preserves_header_ordering_around_marker() {
    let mut ls = LevelScript::new();
    ls.header_entries
        .push(LevelScriptHeaderEntry::OnTransition { script_id: 1 });
    ls.header_entries
        .push(LevelScriptHeaderEntry::OnVarCondition);
    ls.header_entries
        .push(LevelScriptHeaderEntry::OnLoad { script_id: 2 });
    ls.var_conditions.push(LevelScriptVarConditionEntry {
        var: 0x411A,
        value: 1,
        script_id: 29,
    });

    ls.validate().unwrap();

    let bytes = ls.to_bytes();
    let parsed = LevelScript::from_bytes(&bytes).unwrap();
    assert_eq!(parsed.header_entries, ls.header_entries);
    assert_eq!(parsed.var_conditions, ls.var_conditions);
}

#[test]
fn validation_error_display_formats_all_variants() {
    assert_eq!(
        LevelScriptValidationError::ZeroVarInCondition { index: 3 }.message(),
        "var-condition entry at index 3 has var == 0, which is the binary frame-table \
         terminator and would be ignored by the game",
    );
    assert_eq!(
        LevelScriptValidationError::DuplicateOnVarCondition { count: 2 }.message(),
        "found 2 on_var_condition header entries; at most one is allowed",
    );
    assert_eq!(
        LevelScriptValidationError::ConditionsWithoutHeader { condition_count: 4 }.message(),
        "4 var-condition(s) present but no on_var_condition header entry to reference them",
    );
}

#[test]
fn padding_alone_is_not_empty() {
    let mut ls = LevelScript::new();
    assert!(ls.is_empty());
    ls.padding = 4;
    assert!(!ls.is_empty());
    assert_eq!(ls.to_bytes(), vec![0, 0, 0, 0]);
}
