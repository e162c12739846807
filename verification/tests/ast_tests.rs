use robot_battle::ast::{sections_supported, translate_commands_to_instructions, Command, Instruction, Section};

#[test]
fn test_move_command() {
    let cmd = Command::Move {
        direction: "forward".to_string(),
        distance: 5,
    };
    assert_eq!(
        cmd,
        Command::Move {
            direction: "forward".to_string(),
            distance: 5
        }
    );
}

#[test]
fn test_rotate_command() {
    let cmd = Command::Rotate {
        section: Section::Turret,
        angle: 90,
    };
    assert_eq!(
        cmd,
        Command::Rotate {
            section: Section::Turret,
            angle: 90
        }
    );
}

#[test]
fn test_loop_command() {
    let block = vec![Command::Scan, Command::Fire];
    let cmd = Command::Loop {
        block: block.clone(),
    };
    assert_eq!(cmd, Command::Loop { block });
}

#[test]
fn test_translate_move_exact() {
    let cmds = vec![Command::Move {
        direction: "forward".to_string(),
        distance: 2,
    }];
    let instructions = translate_commands_to_instructions(&cmds);
    assert_eq!(
        instructions,
        vec![
            Instruction::LoadCounter {
                reg: "mv0".to_string(),
                value: 2
            },
            Instruction::Label("move_loop0".to_string()),
            Instruction::MoveForward,
            Instruction::Dec {
                reg: "mv0".to_string()
            },
            Instruction::Jnz {
                reg: "mv0".to_string(),
                label: "move_loop0".to_string()
            },
        ]
    );
}

#[test]
fn test_translate_rotate_negative_angle() {
    let cmds = vec![Command::Rotate {
        section: Section::Body,
        angle: -90,
    }];
    let instructions = translate_commands_to_instructions(&cmds);
    assert_eq!(
        instructions,
        vec![
            Instruction::LoadCounter {
                reg: "rot0".to_string(),
                value: 90
            },
            Instruction::Label("turn_loop0".to_string()),
            Instruction::TurnRight,
            Instruction::Dec {
                reg: "rot0".to_string()
            },
            Instruction::Jnz {
                reg: "rot0".to_string(),
                label: "turn_loop0".to_string()
            },
        ]
    );
}

#[test]
fn test_translate_rotate_positive_turns_left() {
    let cmds = vec![Command::Rotate {
        section: Section::Body,
        angle: 1,
    }];
    let instructions = translate_commands_to_instructions(&cmds);
    assert_eq!(instructions[2], Instruction::TurnLeft);
}

#[test]
fn test_translate_zero_angle_emits_nothing() {
    let cmds = vec![Command::Rotate {
        section: Section::Body,
        angle: 0,
    }];
    let instructions = translate_commands_to_instructions(&cmds);
    assert!(instructions.is_empty());
}

#[test]
fn test_translate_zero_distance_emits_nothing() {
    let cmds = vec![Command::Move {
        direction: "forward".to_string(),
        distance: 0,
    }];
    let instructions = translate_commands_to_instructions(&cmds);
    assert!(instructions.is_empty());
}

#[test]
fn test_translate_unsupported_direction_dropped() {
    let cmds = vec![
        Command::Move {
            direction: "backward".to_string(),
            distance: 5,
        },
        Command::Fire,
    ];
    let instructions = translate_commands_to_instructions(&cmds);
    assert_eq!(instructions, vec![Instruction::Fire]);
}

#[test]
fn test_translate_scan_emits_nothing() {
    let cmds = vec![Command::Scan, Command::Fire, Command::Scan];
    let instructions = translate_commands_to_instructions(&cmds);
    assert_eq!(instructions, vec![Instruction::Fire]);
}

#[test]
fn test_translate_loop_wraps_block() {
    let cmds = vec![Command::Loop {
        block: vec![Command::Fire],
    }];
    let instructions = translate_commands_to_instructions(&cmds);
    assert_eq!(
        instructions,
        vec![
            Instruction::Label("loop0".to_string()),
            Instruction::Fire,
            Instruction::Jnz {
                reg: "always".to_string(),
                label: "loop0".to_string()
            },
        ]
    );
}

#[test]
fn test_translate_nested_names_unique() {
    // Nested loops draw fresh numbers from one counter, so their labels
    // never collide.
    let cmds = vec![Command::Loop {
        block: vec![Command::Loop {
            block: vec![Command::Fire],
        }],
    }];
    let instructions = translate_commands_to_instructions(&cmds);
    assert_eq!(
        instructions,
        vec![
            Instruction::Label("loop0".to_string()),
            Instruction::Label("loop1".to_string()),
            Instruction::Fire,
            Instruction::Jnz {
                reg: "always".to_string(),
                label: "loop1".to_string()
            },
            Instruction::Jnz {
                reg: "always".to_string(),
                label: "loop0".to_string()
            },
        ]
    );
}

#[test]
fn test_translate_sibling_names_unique() {
    let cmds = vec![
        Command::Move {
            direction: "forward".to_string(),
            distance: 1,
        },
        Command::Rotate {
            section: Section::Body,
            angle: 1,
        },
    ];
    let instructions = translate_commands_to_instructions(&cmds);
    assert_eq!(instructions.len(), 10);
    assert_eq!(
        instructions[0],
        Instruction::LoadCounter {
            reg: "mv0".to_string(),
            value: 1
        }
    );
    assert_eq!(
        instructions[5],
        Instruction::LoadCounter {
            reg: "rot1".to_string(),
            value: 1
        }
    );
}

#[test]
fn test_sections_supported() {
    let ok = vec![Command::Loop {
        block: vec![Command::Rotate {
            section: Section::Body,
            angle: 90,
        }],
    }];
    assert!(sections_supported(&ok));
    let bad = vec![Command::Loop {
        block: vec![Command::Rotate {
            section: Section::Turret,
            angle: 90,
        }],
    }];
    assert!(!sections_supported(&bad));
}
