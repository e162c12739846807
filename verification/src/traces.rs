//! Laws about executing lowered programs.
//!
//! These lemmas state what the engine does, over many ticks, with the
//! instruction sequences the translator emits: a lowered forward move of
//! distance `d` performs exactly `d` single steps and then runs off the end
//! of its program; a lowered `loop` block closes on itself, its final jump
//! setting the instruction pointer back to the label that opens it; and an
//! unconditional jump on the reserved register name jumps whatever the
//! registers hold.

use vstd::prelude::*;

use crate::ast::{
    loop_label, lower_cmd, lower_cmds, move_label, mv_reg, translate_spec, CommandModel,
    InstructionModel,
};
use crate::engine::{
    dir_dx, dir_dy, find_label_spec, jnz_taken, sat_add_i64, step_spec, RobotModel,
};

verus! {

/// The state after `n` engine steps.
pub open spec fn run(r: RobotModel, n: nat) -> RobotModel
    decreases n,
{
    if n == 0 {
        r
    } else {
        step_spec(run(r, (n - 1) as nat))
    }
}

/// The step about to execute is a single forward move.
pub open spec fn is_move_step(m: RobotModel) -> bool {
    0 <= m.ip < m.instruction_queue.len() && m.instruction_queue[m.ip]
        is MoveForward
}

/// How many of the first `n` steps executed a forward move.
pub open spec fn moves_executed(r: RobotModel, n: nat) -> int
    decreases n,
{
    if n == 0 {
        0
    } else {
        moves_executed(r, (n - 1) as nat) + if is_move_step(run(r, (n - 1) as nat)) {
            1int
        } else {
            0int
        }
    }
}

/// No step changes the program.
proof fn lemma_run_keeps_program(r: RobotModel, n: nat)
    ensures
        run(r, n).instruction_queue == r.instruction_queue,
    decreases n,
{
    if n > 0 {
        lemma_run_keeps_program(r, (n - 1) as nat);
    }
}

/// Running `a + b` steps is running `a` steps and then `b` more.
proof fn lemma_run_add(r: RobotModel, a: nat, b: nat)
    ensures
        run(r, a + b) == run(run(r, a), b),
    decreases b,
{
    if b > 0 {
        lemma_run_add(r, a, (b - 1) as nat);
        assert(run(r, a + b) == step_spec(run(r, (a + b - 1) as nat)));
    }
}

/// Moves split the same way runs do.
proof fn lemma_moves_add(r: RobotModel, a: nat, b: nat)
    ensures
        moves_executed(r, a + b) == moves_executed(r, a) + moves_executed(run(r, a), b),
    decreases b,
{
    if b > 0 {
        lemma_moves_add(r, a, (b - 1) as nat);
        lemma_run_add(r, a, (b - 1) as nat);
        assert(moves_executed(r, a + b) == moves_executed(r, (a + b - 1) as nat)
            + if is_move_step(run(r, (a + b - 1) as nat)) {
            1int
        } else {
            0int
        });
    }
}

/// A robot whose pointer is outside its program never changes again and
/// executes no further move.
proof fn lemma_terminal(r: RobotModel, n: nat)
    requires
        !(0 <= r.ip < r.instruction_queue.len()),
    ensures
        run(r, n) == r,
        moves_executed(r, n) == 0,
    decreases n,
{
    if n > 0 {
        lemma_terminal(r, (n - 1) as nat);
    }
}

/// The generated counter register name differs from the reserved name.
proof fn lemma_mv_reg_not_always()
    ensures
        mv_reg(0) != "always"@,
{
    reveal_strlit("mv");
    reveal_strlit("always");
    assert(mv_reg(0).len() == 3);
    assert("always"@.len() == 6);
}

/// One pass of a lowered move's countdown loop, from the label with counter
/// value `k`: four steps execute the label, one forward move, the decrement,
/// and the jump, which closes the loop unless the counter has reached zero.
proof fn lemma_move_iteration(r: RobotModel, d: int, k: int)
    requires
        r.instruction_queue.len() == 5,
        r.instruction_queue[0] == (InstructionModel::LoadCounter { reg: mv_reg(0), value: d }),
        r.instruction_queue[1] == InstructionModel::Label(move_label(0)),
        r.instruction_queue[2] == InstructionModel::MoveForward,
        r.instruction_queue[3] == (InstructionModel::Dec { reg: mv_reg(0) }),
        r.instruction_queue[4] == (InstructionModel::Jnz { reg: mv_reg(0), label: move_label(0) }),
        r.ip == 1,
        r.registers == Map::<Seq<char>, int>::empty().insert(mv_reg(0), k),
        k >= 1,
    ensures
        run(r, 4) == (RobotModel {
            ip: if k == 1 {
                5int
            } else {
                1int
            },
            registers: r.registers.insert(mv_reg(0), k - 1),
            position: (
                sat_add_i64(r.position.0, dir_dx(r.heading)),
                sat_add_i64(r.position.1, dir_dy(r.heading)),
            ),
            ..r
        }),
        moves_executed(r, 4) == 1,
{
    lemma_mv_reg_not_always();
    reveal_with_fuel(run, 5);
    reveal_with_fuel(moves_executed, 5);
    reveal_with_fuel(crate::engine::find_label_from, 3);
    let r1 = step_spec(r);
    assert(r1.ip == 2);
    let r2 = step_spec(r1);
    assert(r2.ip == 3);
    let r3 = step_spec(r2);
    assert(r3.registers == r.registers.insert(mv_reg(0), k - 1));
    assert(r3.ip == 4);
    let r4 = step_spec(r3);
    assert(jnz_taken(r3.registers, mv_reg(0)) == (k != 1));
    if k != 1 {
        assert(find_label_spec(r.instruction_queue, move_label(0)) == Some(1int));
        assert(r4.ip == 1);
    } else {
        assert(r4.ip == 5);
    }
    assert(run(r, 4) == r4);
    assert(run(r, 4) =~~= (RobotModel {
        ip: if k == 1 {
            5int
        } else {
            1int
        },
        registers: r.registers.insert(mv_reg(0), k - 1),
        position: (
            sat_add_i64(r.position.0, dir_dx(r.heading)),
            sat_add_i64(r.position.1, dir_dy(r.heading)),
        ),
        ..r
    }));
}

/// The countdown loop of a lowered move, entered at the label with counter
/// value `k`, executes exactly `k` forward moves in `4 k` steps and leaves
/// the instruction pointer past the end of the program.
proof fn lemma_move_countdown(r: RobotModel, d: int, k: int)
    requires
        r.instruction_queue.len() == 5,
        r.instruction_queue[0] == (InstructionModel::LoadCounter { reg: mv_reg(0), value: d }),
        r.instruction_queue[1] == InstructionModel::Label(move_label(0)),
        r.instruction_queue[2] == InstructionModel::MoveForward,
        r.instruction_queue[3] == (InstructionModel::Dec { reg: mv_reg(0) }),
        r.instruction_queue[4] == (InstructionModel::Jnz { reg: mv_reg(0), label: move_label(0) }),
        r.ip == 1,
        r.registers == Map::<Seq<char>, int>::empty().insert(mv_reg(0), k),
        k >= 1,
    ensures
        run(r, (4 * k) as nat).ip == 5,
        moves_executed(r, (4 * k) as nat) == k,
    decreases k,
{
    lemma_move_iteration(r, d, k);
    if k == 1 {
    } else {
        let r4 = run(r, 4);
        assert(r4.registers =~~= Map::<Seq<char>, int>::empty().insert(mv_reg(0), k - 1));
        lemma_run_keeps_program(r, 4);
        lemma_move_countdown(r4, d, k - 1);
        lemma_run_add(r, 4, (4 * (k - 1)) as nat);
        lemma_moves_add(r, 4, (4 * (k - 1)) as nat);
        assert(4 + 4 * (k - 1) == 4 * k);
    }
}

/// Lowering `move forward d` with `d` at least one yields a program whose
/// run from a fresh state performs exactly `d` single forward moves and then
/// falls through the countdown loop: after `1 + 4 d` steps the pointer
/// stands past the end of the program, `d` of those steps were forward
/// moves, and no later step moves again or changes anything at all.
pub proof fn lemma_move_lowering_trace(r: RobotModel, d: int)
    requires
        d >= 1,
        r.instruction_queue == translate_spec(
            seq![CommandModel::Move { direction: "forward"@, distance: d }],
        ),
        r.ip == 0,
        r.registers == Map::<Seq<char>, int>::empty(),
    ensures
        r.instruction_queue.len() == 5,
        run(r, (1 + 4 * d) as nat).ip == 5,
        moves_executed(r, (1 + 4 * d) as nat) == d,
        forall|m: nat|
            m >= (1 + 4 * d) as nat ==> #[trigger] moves_executed(r, m) == d && run(r, m) == run(
                r,
                (1 + 4 * d) as nat,
            ),
{
    let cmd = CommandModel::Move { direction: "forward"@, distance: d };
    let prog = r.instruction_queue;
    assert(seq![cmd].len() == 1);
    assert(seq![cmd][0] == cmd);
    assert(seq![cmd].drop_first() =~= Seq::<CommandModel>::empty());
    assert(lower_cmds(Seq::<CommandModel>::empty(), lower_cmd(cmd, 0).1).0
        =~= Seq::<InstructionModel>::empty());
    assert(prog == lower_cmd(cmd, 0).0 + lower_cmds(
        Seq::<CommandModel>::empty(),
        lower_cmd(cmd, 0).1,
    ).0);
    assert(prog =~= lower_cmd(cmd, 0).0);
    assert(prog.len() == 5);
    let r1 = step_spec(r);
    assert(r1.ip == 1);
    assert(r1.registers == Map::<Seq<char>, int>::empty().insert(mv_reg(0), d));
    assert(run(r, 1) == r1) by {
        reveal_with_fuel(run, 2);
    }
    assert(moves_executed(r, 1) == 0) by {
        reveal_with_fuel(moves_executed, 2);
    }
    lemma_move_countdown(r1, d, d);
    lemma_run_add(r, 1, (4 * d) as nat);
    lemma_moves_add(r, 1, (4 * d) as nat);
    let rend = run(r, (1 + 4 * d) as nat);
    lemma_run_keeps_program(r, (1 + 4 * d) as nat);
    assert(rend.ip == 5);
    assert forall|m: nat| m >= (1 + 4 * d) as nat implies #[trigger] moves_executed(r, m) == d
        && run(r, m) == run(r, (1 + 4 * d) as nat) by {
        let extra = (m - (1 + 4 * d)) as nat;
        lemma_run_add(r, (1 + 4 * d) as nat, extra);
        lemma_moves_add(r, (1 + 4 * d) as nat, extra);
        lemma_terminal(rend, extra);
    }
}

/// The lowering of a `loop` block never leaves the loop: the lowered
/// program ends with an unconditional jump whose step sets the instruction
/// pointer back to the opening label at index zero, whatever the registers
/// and whatever the block holds.
pub proof fn lemma_loop_lowering_cycles(block: Seq<CommandModel>, r: RobotModel)
    requires
        r.instruction_queue == translate_spec(seq![CommandModel::Loop { block }]),
        r.ip == r.instruction_queue.len() - 1,
    ensures
        r.instruction_queue.len() >= 2,
        r.instruction_queue[0] == InstructionModel::Label(loop_label(0)),
        r.instruction_queue[r.ip] == (InstructionModel::Jnz {
            reg: "always"@,
            label: loop_label(0),
        }),
        step_spec(r).ip == 0,
{
    let cmd = CommandModel::Loop { block };
    let prog = r.instruction_queue;
    assert(seq![cmd].len() == 1);
    assert(seq![cmd][0] == cmd);
    assert(seq![cmd].drop_first() =~= Seq::<CommandModel>::empty());
    assert(lower_cmds(Seq::<CommandModel>::empty(), lower_cmd(cmd, 0).1).0
        =~= Seq::<InstructionModel>::empty());
    assert(prog == lower_cmd(cmd, 0).0 + lower_cmds(
        Seq::<CommandModel>::empty(),
        lower_cmd(cmd, 0).1,
    ).0);
    assert(prog =~= lower_cmd(cmd, 0).0);
    let inner = lower_cmds(block, 1);
    assert(prog.len() == 2 + inner.0.len());
    assert(prog[0] == InstructionModel::Label(loop_label(0)));
    assert(prog[prog.len() - 1] == (InstructionModel::Jnz {
        reg: "always"@,
        label: loop_label(0),
    }));
    assert(jnz_taken(r.registers, "always"@));
    assert(find_label_spec(prog, loop_label(0)) == Some(0int)) by {
        reveal_with_fuel(crate::engine::find_label_from, 2);
    }
}

/// A jump on the reserved register name `always` is taken regardless of any
/// register state, including when no register of that name was ever loaded:
/// the pointer moves to the first matching label, or past the jump when no
/// label matches.
pub proof fn lemma_jnz_always_jumps(r: RobotModel, label: Seq<char>)
    requires
        0 <= r.ip < r.instruction_queue.len(),
        r.instruction_queue[r.ip] == (InstructionModel::Jnz { reg: "always"@, label: label }),
    ensures
        step_spec(r) == (RobotModel {
            ip: (match find_label_spec(r.instruction_queue, label) {
                Some(t) => t,
                None => r.ip + 1,
            }),
            ..r
        }),
{
    assert(jnz_taken(r.registers, "always"@));
    assert(step_spec(r) =~~= (RobotModel {
        ip: (match find_label_spec(r.instruction_queue, label) {
            Some(t) => t,
            None => r.ip + 1,
        }),
        ..r
    }));
}


/// In a compiled program, every conditional jump resolves: its label is
/// carried by a label instruction of the same program, so the engine's
/// silent fall-through for a missing label never happens on the
/// translator's output.
pub proof fn lemma_compiled_jumps_resolve(cs: Seq<CommandModel>, p: int)
    requires
        0 <= p < translate_spec(cs).len(),
        translate_spec(cs)[p] is Jnz,
    ensures
        find_label_spec(translate_spec(cs), translate_spec(cs)[p]->Jnz_label) is Some,
{
    let prog = translate_spec(cs);
    let label = prog[p]->Jnz_label;
    crate::ast::lemma_generated_names_unique(cs);
    assert(exists|q: int| 0 <= q < prog.len() && prog[q] == InstructionModel::Label(label));
    crate::engine::lemma_find_label_properties(prog, label);
    if find_label_spec(prog, label) is None {
        let q = choose|q: int| 0 <= q < prog.len() && prog[q] == InstructionModel::Label(label);
        assert(false);
    }
}

} // verus!
