use robot_battle::ast::{translate_commands_to_instructions, Instruction};
use robot_battle::engine::{execute_robot_instruction, tick, Registers, Robot};
use robot_battle::parser::parse_tokens;
use robot_battle::tokenizer::tokenize_script;

fn robot_with(instructions: Vec<Instruction>) -> Robot {
    Robot {
        id: 1,
        position: (0, 0),
        heading: 0,
        health: 10,
        instruction_queue: instructions,
        ip: 0,
        registers: Registers::new(),
    }
}

fn compile(script: &str) -> Vec<Instruction> {
    let commands = parse_tokens(&tokenize_script(script)).unwrap();
    translate_commands_to_instructions(&commands)
}

#[test]
fn test_move_lowering_executes_exactly_n_steps() {
    // A lowered forward move of distance three performs exactly three unit
    // steps and then runs off the end of its program.
    let mut r = robot_with(compile("move forward 3"));
    assert_eq!(r.instruction_queue.len(), 5);
    for _ in 0..(1 + 4 * 3) {
        execute_robot_instruction(&mut r);
    }
    assert_eq!(r.position, (3, 0));
    assert_eq!(r.ip, 5);
    // The program has ended: further ticks change nothing.
    for _ in 0..10 {
        execute_robot_instruction(&mut r);
    }
    assert_eq!(r.position, (3, 0));
    assert_eq!(r.ip, 5);
}

#[test]
fn test_move_lowering_zero_distance_is_zero_steps() {
    // Distance zero lowers to no instructions at all, so no step ever moves.
    let program = compile("move forward 0");
    assert!(program.is_empty());
    let mut r = robot_with(program);
    for _ in 0..10 {
        execute_robot_instruction(&mut r);
    }
    assert_eq!(r.position, (0, 0));
    assert_eq!(r.ip, 0);
}

#[test]
fn test_loop_lowering_cycles_back_to_label() {
    // The lowered loop body here is five instructions long; after the step
    // that executes the opening label and five more, the pointer stands on
    // the closing jump, and one further step brings it back to the label's
    // index.
    let program = compile("loop { move forward 1 }");
    assert_eq!(program.len(), 7);
    assert_eq!(program[0], Instruction::Label("loop0".to_string()));
    let inner_len = program.len() - 2;
    let mut r = robot_with(program);
    execute_robot_instruction(&mut r);
    assert_eq!(r.ip, 1);
    for _ in 0..inner_len {
        execute_robot_instruction(&mut r);
    }
    assert_eq!(r.ip, 6);
    execute_robot_instruction(&mut r);
    assert_eq!(r.ip, 0);
}

#[test]
fn test_jnz_always_jumps_without_register() {
    let mut r = robot_with(vec![
        Instruction::Label("top".to_string()),
        Instruction::Fire,
        Instruction::Jnz {
            reg: "always".to_string(),
            label: "top".to_string(),
        },
    ]);
    r.ip = 2;
    execute_robot_instruction(&mut r);
    assert_eq!(r.ip, 0);
}

#[test]
fn test_jnz_always_jumps_even_with_zero_register() {
    let mut r = robot_with(vec![
        Instruction::Label("top".to_string()),
        Instruction::Jnz {
            reg: "always".to_string(),
            label: "top".to_string(),
        },
    ]);
    r.registers.set("always".to_string(), 0);
    r.ip = 1;
    execute_robot_instruction(&mut r);
    assert_eq!(r.ip, 0);
}

#[test]
fn test_jnz_missing_label_falls_through() {
    let mut r = robot_with(vec![Instruction::Jnz {
        reg: "always".to_string(),
        label: "nowhere".to_string(),
    }]);
    execute_robot_instruction(&mut r);
    assert_eq!(r.ip, 1);
}

#[test]
fn test_jnz_zero_register_not_taken() {
    let mut r = robot_with(vec![
        Instruction::Label("top".to_string()),
        Instruction::Jnz {
            reg: "c".to_string(),
            label: "top".to_string(),
        },
    ]);
    r.registers.set("c".to_string(), 0);
    r.ip = 1;
    execute_robot_instruction(&mut r);
    assert_eq!(r.ip, 2);
}

#[test]
fn test_dec_missing_register_is_noop() {
    let mut r = robot_with(vec![Instruction::Dec {
        reg: "ghostly".to_string(),
    }]);
    execute_robot_instruction(&mut r);
    assert_eq!(r.ip, 1);
    assert_eq!(r.registers.get("ghostly"), None);
}

#[test]
fn test_load_counter_overwrites() {
    let mut r = robot_with(vec![
        Instruction::LoadCounter {
            reg: "c".to_string(),
            value: 4,
        },
        Instruction::LoadCounter {
            reg: "c".to_string(),
            value: 9,
        },
        Instruction::Dec {
            reg: "c".to_string(),
        },
    ]);
    execute_robot_instruction(&mut r);
    assert_eq!(r.registers.get("c"), Some(4));
    execute_robot_instruction(&mut r);
    assert_eq!(r.registers.get("c"), Some(9));
    execute_robot_instruction(&mut r);
    assert_eq!(r.registers.get("c"), Some(8));
}

#[test]
fn test_move_each_heading() {
    for (heading, expected) in [(0u8, (1, 0)), (1u8, (0, 1)), (2u8, (-1, 0)), (3u8, (0, -1))] {
        let mut r = robot_with(vec![Instruction::MoveForward]);
        r.heading = heading;
        execute_robot_instruction(&mut r);
        assert_eq!(r.position, expected);
    }
}

#[test]
fn test_turns_change_heading_modulo_four() {
    let mut r = robot_with(vec![
        Instruction::TurnRight,
        Instruction::TurnRight,
        Instruction::TurnRight,
        Instruction::TurnRight,
        Instruction::TurnLeft,
    ]);
    execute_robot_instruction(&mut r);
    assert_eq!(r.heading, 1);
    execute_robot_instruction(&mut r);
    assert_eq!(r.heading, 2);
    execute_robot_instruction(&mut r);
    assert_eq!(r.heading, 3);
    execute_robot_instruction(&mut r);
    assert_eq!(r.heading, 0);
    execute_robot_instruction(&mut r);
    assert_eq!(r.heading, 3);
}

#[test]
fn test_two_robots_tick_move_one_step() {
    // Two robots compiled from the same looping script, at different
    // positions with different headings.  The fourth tick executes each
    // robot's single forward move: each has then moved exactly one step
    // along its own heading, and no robot's health has changed.
    let program = compile("loop { move forward 1 }");
    let mut a = robot_with(program.clone());
    a.id = 1;
    a.position = (2, 2);
    let mut b = robot_with(program);
    b.id = 2;
    b.position = (200, 200);
    b.heading = 1;
    let mut robots = vec![a, b];
    for _ in 0..3 {
        tick(&mut robots);
    }
    assert_eq!(robots[0].position, (2, 2));
    assert_eq!(robots[1].position, (200, 200));
    tick(&mut robots);
    assert_eq!(robots[0].position, (3, 2));
    assert_eq!(robots[1].position, (200, 201));
    assert_eq!(robots[0].health, 10);
    assert_eq!(robots[1].health, 10);
}

#[test]
fn test_fire_damages_robot_at_same_position() {
    let mut a = robot_with(vec![Instruction::Fire]);
    a.id = 1;
    let mut b = robot_with(vec![]);
    b.id = 2;
    let mut robots = vec![a, b];
    tick(&mut robots);
    assert_eq!(robots[0].health, 10);
    assert_eq!(robots[1].health, 8);
}

#[test]
fn test_fire_misses_robot_elsewhere() {
    let mut a = robot_with(vec![Instruction::Fire]);
    a.id = 1;
    let mut b = robot_with(vec![]);
    b.id = 2;
    b.position = (5, 5);
    let mut robots = vec![a, b];
    tick(&mut robots);
    assert_eq!(robots[1].health, 10);
}

#[test]
fn test_dead_robot_is_skipped() {
    let mut r = robot_with(vec![Instruction::MoveForward]);
    r.health = 0;
    let mut robots = vec![r];
    tick(&mut robots);
    assert_eq!(robots[0].position, (0, 0));
    assert_eq!(robots[0].ip, 0);
}

#[test]
fn test_registers_get_and_set() {
    let mut regs = Registers::new();
    assert_eq!(regs.get("a"), None);
    regs.set("a".to_string(), 3);
    regs.set("b".to_string(), -1);
    assert_eq!(regs.get("a"), Some(3));
    assert_eq!(regs.get("b"), Some(-1));
    regs.set("a".to_string(), 7);
    assert_eq!(regs.get("a"), Some(7));
}
