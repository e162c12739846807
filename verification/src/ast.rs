//! Command tree and instruction set of the robot-control language, and the
//! translator that lowers a command tree into a flat instruction sequence.
//!
//! Lowering turns every bounded repetition (`move`, `rotate`) into a countdown
//! loop over a fresh counter register and a fresh label, and every `loop`
//! block into a label followed by an unconditional jump back to it.  A counter
//! threaded through the whole compilation numbers the generated names, so
//! names of sibling and nested constructs never collide.

use vstd::prelude::*;
use vstd::math::abs;
use vstd::string::*;

use crate::text::{dec_str, lemma_dec_str_injective, name_with_index, str_eq};

verus! {

/// The robot subsystem a `rotate` command addresses.
#[derive(Debug, Clone, Copy, PartialEq, Eq, Structural)]
pub enum Section {
    Body,
    Turret,
    Scanner,
}

/// One parsed command.
#[derive(Debug, PartialEq)]
pub enum Command {
    /// Move the robot in a direction by a distance.
    Move { direction: String, distance: i32 },
    /// Rotate a section by an angle.
    Rotate { section: Section, angle: i32 },
    /// Scan for enemies.
    Scan,
    /// Fire the weapon.
    Fire,
    /// Execute the block repeatedly, forever.
    Loop { block: Vec<Command> },
}

/// A block is a sequence of commands.
pub type Block = Vec<Command>;

/// Mathematical image of a [`Command`].
#[verifier::ext_equal]
pub ghost enum CommandModel {
    Move { direction: Seq<char>, distance: int },
    Rotate { section: Section, angle: int },
    Scan,
    Fire,
    Loop { block: Seq<CommandModel> },
}

/// Mathematical image of a command, with nested blocks viewed recursively.
pub open spec fn cmd_view(c: Command) -> CommandModel
    decreases c, 1int,
{
    match c {
        Command::Move { direction, distance } => CommandModel::Move {
            direction: direction@,
            distance: distance as int,
        },
        Command::Rotate { section, angle } => CommandModel::Rotate {
            section: section,
            angle: angle as int,
        },
        Command::Scan => CommandModel::Scan,
        Command::Fire => CommandModel::Fire,
        Command::Loop { block } => {
            proof {
                assert(decreases_to!(c => block));
                assert(decreases_to!(block => block@));
            }
            CommandModel::Loop { block: cmds_view(block@) }
        },
    }
}

/// Mathematical image of a command sequence.
pub open spec fn cmds_view(s: Seq<Command>) -> Seq<CommandModel>
    decreases s, 0int,
{
    if s.len() == 0 {
        Seq::empty()
    } else {
        seq![cmd_view(s[0])] + cmds_view(s.subrange(1, s.len() as int))
    }
}

impl DeepView for Command {
    type V = CommandModel;

    open spec fn deep_view(&self) -> CommandModel {
        cmd_view(*self)
    }
}

/// The sequence view agrees element by element with the view of each command,
/// and so with the deep view of a command vector.
pub proof fn lemma_cmds_view_eq(s: Seq<Command>)
    ensures
        cmds_view(s) == Seq::new(s.len(), |i: int| cmd_view(s[i])),
        cmds_view(s).len() == s.len(),
        forall|i: int| 0 <= i < s.len() ==> #[trigger] cmds_view(s)[i] == cmd_view(s[i]),
    decreases s.len(),
{
    if s.len() > 0 {
        lemma_cmds_view_eq(s.subrange(1, s.len() as int));
        assert forall|i: int| 0 <= i < s.len() implies #[trigger] cmds_view(s)[i] == cmd_view(
            s[i],
        ) by {
            if i > 0 {
                assert(cmds_view(s)[i] == cmds_view(s.subrange(1, s.len() as int))[i - 1]);
                assert(s.subrange(1, s.len() as int)[i - 1] == s[i]);
            }
        }
    }
    assert(cmds_view(s) =~= Seq::new(s.len(), |i: int| cmd_view(s[i])));
}

impl Clone for Command {
    /// A clone has the same mathematical image as the original.
    fn clone(&self) -> (r: Self)
        ensures
            r.deep_view() == self.deep_view(),
        decreases self,
    {
        match self {
            Command::Move { direction, distance } => Command::Move {
                direction: direction.clone(),
                distance: *distance,
            },
            Command::Rotate { section, angle } => Command::Rotate {
                section: *section,
                angle: *angle,
            },
            Command::Scan => Command::Scan,
            Command::Fire => Command::Fire,
            Command::Loop { block } => {
                let mut b: Vec<Command> = Vec::new();
                let mut i: usize = 0;
                proof {
                    assert(decreases_to!(*self => *block));
                }
                while i < block.len()
                    invariant
                        0 <= i <= block.len(),
                        b.len() == i,
                        decreases_to!(*self => *block),
                        forall|j: int| 0 <= j < i ==> cmd_view(#[trigger] b@[j]) == cmd_view(
                            block@[j],
                        ),
                    decreases block.len() - i,
                {
                    proof {
                        assert(decreases_to!(*block => block[i as int]));
                    }
                    b.push(block[i].clone());
                    i = i + 1;
                }
                proof {
                    lemma_cmds_view_eq(b@);
                    lemma_cmds_view_eq(block@);
                    assert(cmds_view(b@) =~= cmds_view(block@));
                }
                Command::Loop { block: b }
            },
        }
    }
}

/// One flat, register/label-addressed instruction.
#[derive(Debug, Clone, PartialEq)]
pub enum Instruction {
    /// Turn left by one unit.
    TurnLeft,
    /// Turn right by one unit.
    TurnRight,
    /// Move forward by one unit.
    MoveForward,
    /// Fire the weapon.
    Fire,
    /// Set a counter register to a value.
    LoadCounter { reg: String, value: i64 },
    /// Decrement a register, if it is present.
    Dec { reg: String },
    /// Jump to a label while a register is nonzero; the reserved register
    /// name `always` jumps unconditionally.
    Jnz { reg: String, label: String },
    /// A jump target; executing it has no effect.
    Label(String),
}

/// Mathematical image of an [`Instruction`].
#[verifier::ext_equal]
pub ghost enum InstructionModel {
    TurnLeft,
    TurnRight,
    MoveForward,
    Fire,
    LoadCounter { reg: Seq<char>, value: int },
    Dec { reg: Seq<char> },
    Jnz { reg: Seq<char>, label: Seq<char> },
    Label(Seq<char>),
}

impl DeepView for Instruction {
    type V = InstructionModel;

    open spec fn deep_view(&self) -> InstructionModel {
        match self {
            Instruction::TurnLeft => InstructionModel::TurnLeft,
            Instruction::TurnRight => InstructionModel::TurnRight,
            Instruction::MoveForward => InstructionModel::MoveForward,
            Instruction::Fire => InstructionModel::Fire,
            Instruction::LoadCounter { reg, value } => InstructionModel::LoadCounter {
                reg: reg@,
                value: *value as int,
            },
            Instruction::Dec { reg } => InstructionModel::Dec { reg: reg@ },
            Instruction::Jnz { reg, label } => InstructionModel::Jnz {
                reg: reg@,
                label: label@,
            },
            Instruction::Label(l) => InstructionModel::Label(l@),
        }
    }
}

/// Counter register name of the move lowered with number `n`.
pub open spec fn mv_reg(n: nat) -> Seq<char> {
    "mv"@ + dec_str(n)
}

/// Loop-back label of the move lowered with number `n`.
pub open spec fn move_label(n: nat) -> Seq<char> {
    "move_loop"@ + dec_str(n)
}

/// Counter register name of the rotation lowered with number `n`.
pub open spec fn rot_reg(n: nat) -> Seq<char> {
    "rot"@ + dec_str(n)
}

/// Loop-back label of the rotation lowered with number `n`.
pub open spec fn turn_label(n: nat) -> Seq<char> {
    "turn_loop"@ + dec_str(n)
}

/// Label of the `loop` block lowered with number `n`.
pub open spec fn loop_label(n: nat) -> Seq<char> {
    "loop"@ + dec_str(n)
}

/// Lowering of one command with name counter `n`: the emitted instructions
/// and the counter for the next construct.
///
/// A forward move of distance at least one becomes a countdown loop of single
/// steps; a move of any other direction or of distance zero or less emits
/// nothing.  A rotation of the body becomes a countdown loop of single turns,
/// left for a nonnegative angle and right otherwise; rotations of other
/// sections are not supported by the lowering and are given no meaning here.
/// `scan` emits nothing, `fire` a single instruction, and a `loop` block a
/// label, the lowered block, and an unconditional jump back to the label.
pub open spec fn lower_cmd(c: CommandModel, n: nat) -> (Seq<InstructionModel>, nat)
    decreases c,
{
    match c {
        CommandModel::Move { direction, distance } => {
            if direction == "forward"@ && distance >= 1 {
                (
                    seq![
                        InstructionModel::LoadCounter { reg: mv_reg(n), value: distance },
                        InstructionModel::Label(move_label(n)),
                        InstructionModel::MoveForward,
                        InstructionModel::Dec { reg: mv_reg(n) },
                        InstructionModel::Jnz { reg: mv_reg(n), label: move_label(n) },
                    ],
                    n + 1,
                )
            } else {
                (Seq::empty(), n)
            }
        },
        CommandModel::Rotate { section, angle } => {
            if section == Section::Body && abs(angle) >= 1 {
                (
                    seq![
                        InstructionModel::LoadCounter { reg: rot_reg(n), value: abs(angle) as int },
                        InstructionModel::Label(turn_label(n)),
                        if angle > 0 {
                            InstructionModel::TurnLeft
                        } else {
                            InstructionModel::TurnRight
                        },
                        InstructionModel::Dec { reg: rot_reg(n) },
                        InstructionModel::Jnz { reg: rot_reg(n), label: turn_label(n) },
                    ],
                    n + 1,
                )
            } else {
                (Seq::empty(), n)
            }
        },
        CommandModel::Scan => (Seq::empty(), n),
        CommandModel::Fire => (seq![InstructionModel::Fire], n),
        CommandModel::Loop { block } => {
            let inner = lower_cmds(block, n + 1);
            (
                seq![InstructionModel::Label(loop_label(n))] + inner.0 + seq![
                    InstructionModel::Jnz { reg: "always"@, label: loop_label(n) },
                ],
                inner.1,
            )
        },
    }
}

/// Lowering of a command sequence: each command lowered in order, the name
/// counter threaded through.
pub open spec fn lower_cmds(cs: Seq<CommandModel>, n: nat) -> (Seq<InstructionModel>, nat)
    decreases cs,
{
    if cs.len() == 0 {
        (Seq::empty(), n)
    } else {
        let head = lower_cmd(cs[0], n);
        let tail = lower_cmds(cs.drop_first(), head.1);
        (head.0 + tail.0, tail.1)
    }
}

/// The lowering of a whole program, with the name counter starting at zero.
pub open spec fn translate_spec(cs: Seq<CommandModel>) -> Seq<InstructionModel> {
    lower_cmds(cs, 0).0
}

/// Every rotation in the command targets the body section, the only section
/// the lowering supports.
pub open spec fn cmd_sections_ok(c: CommandModel) -> bool
    decreases c,
{
    match c {
        CommandModel::Rotate { section, angle } => section == Section::Body,
        CommandModel::Loop { block } => cmds_sections_ok(block),
        _ => true,
    }
}

/// Every rotation in the command sequence targets the body section.
pub open spec fn cmds_sections_ok(cs: Seq<CommandModel>) -> bool
    decreases cs,
{
    forall|i: int| 0 <= i < cs.len() ==> cmd_sections_ok(#[trigger] cs[i])
}

/// The name counter grows by at most one per emitted instruction.
proof fn lemma_lower_cmd_counter(c: CommandModel, n: nat)
    ensures
        n <= lower_cmd(c, n).1 <= n + lower_cmd(c, n).0.len(),
    decreases c,
{
    match c {
        CommandModel::Loop { block } => {
            lemma_lower_cmds_counter(block, n + 1);
        },
        _ => {},
    }
}

/// The name counter grows by at most one per emitted instruction.
proof fn lemma_lower_cmds_counter(cs: Seq<CommandModel>, n: nat)
    ensures
        n <= lower_cmds(cs, n).1 <= n + lower_cmds(cs, n).0.len(),
    decreases cs,
{
    if cs.len() > 0 {
        lemma_lower_cmd_counter(cs[0], n);
        lemma_lower_cmds_counter(cs.drop_first(), lower_cmd(cs[0], n).1);
    }
}

/// The name is a label generated with number `m`.
spec fn is_gen_label(name: Seq<char>, m: nat) -> bool {
    name == move_label(m) || name == turn_label(m) || name == loop_label(m)
}

/// The name is a counter register generated with number `m`.
spec fn is_gen_reg(name: Seq<char>, m: nat) -> bool {
    name == mv_reg(m) || name == rot_reg(m)
}

/// The name is a label generated with some number in `[lo, hi)`.
spec fn gen_label_in(name: Seq<char>, lo: nat, hi: nat) -> bool {
    exists|m: nat| lo <= m < hi && is_gen_label(name, m)
}

/// The name is a counter register generated with some number in `[lo, hi)`.
spec fn gen_reg_in(name: Seq<char>, lo: nat, hi: nat) -> bool {
    exists|m: nat| lo <= m < hi && is_gen_reg(name, m)
}

/// Names built as one prefix followed by digits carry their number.
proof fn lemma_name_number(p: Seq<char>, a: nat, b: nat)
    requires
        p + dec_str(a) == p + dec_str(b),
    ensures
        a == b,
{
    assert((p + dec_str(a)).skip(p.len() as int) =~= dec_str(a));
    assert((p + dec_str(b)).skip(p.len() as int) =~= dec_str(b));
    lemma_dec_str_injective(a, b);
}

/// Names whose prefixes start with different characters differ.
proof fn lemma_name_prefix(p1: Seq<char>, p2: Seq<char>, a: nat, b: nat)
    requires
        p1.len() >= 1,
        p2.len() >= 1,
        p1[0] != p2[0],
    ensures
        p1 + dec_str(a) != p2 + dec_str(b),
{
    assert((p1 + dec_str(a))[0] == p1[0]);
    assert((p2 + dec_str(b))[0] == p2[0]);
}

/// Labels generated with different numbers differ, whatever their kinds.
proof fn lemma_gen_label_distinct(x: Seq<char>, y: Seq<char>, m1: nat, m2: nat)
    requires
        m1 != m2,
        is_gen_label(x, m1),
        is_gen_label(y, m2),
    ensures
        x != y,
{
    reveal_strlit("move_loop");
    reveal_strlit("turn_loop");
    reveal_strlit("loop");
    if x == y {
        if x == move_label(m1) && y == move_label(m2) {
            lemma_name_number("move_loop"@, m1, m2);
        } else if x == turn_label(m1) && y == turn_label(m2) {
            lemma_name_number("turn_loop"@, m1, m2);
        } else if x == loop_label(m1) && y == loop_label(m2) {
            lemma_name_number("loop"@, m1, m2);
        } else if x == move_label(m1) && y == turn_label(m2) {
            lemma_name_prefix("move_loop"@, "turn_loop"@, m1, m2);
        } else if x == move_label(m1) && y == loop_label(m2) {
            lemma_name_prefix("move_loop"@, "loop"@, m1, m2);
        } else if x == turn_label(m1) && y == move_label(m2) {
            lemma_name_prefix("turn_loop"@, "move_loop"@, m1, m2);
        } else if x == turn_label(m1) && y == loop_label(m2) {
            lemma_name_prefix("turn_loop"@, "loop"@, m1, m2);
        } else if x == loop_label(m1) && y == move_label(m2) {
            lemma_name_prefix("loop"@, "move_loop"@, m1, m2);
        } else {
            lemma_name_prefix("loop"@, "turn_loop"@, m1, m2);
        }
    }
}

/// Counter registers generated with different numbers differ.
proof fn lemma_gen_reg_distinct(x: Seq<char>, y: Seq<char>, m1: nat, m2: nat)
    requires
        m1 != m2,
        is_gen_reg(x, m1),
        is_gen_reg(y, m2),
    ensures
        x != y,
{
    reveal_strlit("mv");
    reveal_strlit("rot");
    if x == y {
        if x == mv_reg(m1) && y == mv_reg(m2) {
            lemma_name_number("mv"@, m1, m2);
        } else if x == rot_reg(m1) && y == rot_reg(m2) {
            lemma_name_number("rot"@, m1, m2);
        } else if x == mv_reg(m1) && y == rot_reg(m2) {
            lemma_name_prefix("mv"@, "rot"@, m1, m2);
        } else {
            lemma_name_prefix("rot"@, "mv"@, m1, m2);
        }
    }
}

/// All generated names in `out` carry numbers from `[lo, hi)`, distinct
/// label instructions carry distinct labels, distinct load instructions
/// carry distinct registers, and every jump's label is carried by some
/// label instruction of `out`.
spec fn names_ok(out: Seq<InstructionModel>, lo: nat, hi: nat) -> bool {
    &&& forall|p: int|
        #![trigger out[p]]
        0 <= p < out.len() ==> (out[p] matches InstructionModel::Label(l) ==> gen_label_in(
            l,
            lo,
            hi,
        ))
    &&& forall|p: int|
        #![trigger out[p]]
        0 <= p < out.len() ==> (out[p] matches InstructionModel::LoadCounter { reg, value }
            ==> gen_reg_in(reg, lo, hi))
    &&& forall|p: int, q: int|
        #![trigger out[p], out[q]]
        0 <= p < q < out.len() ==> (out[p] matches InstructionModel::Label(l1) ==> (out[q]
            matches InstructionModel::Label(l2) ==> l1 != l2))
    &&& forall|p: int, q: int|
        #![trigger out[p], out[q]]
        0 <= p < q < out.len() ==> (out[p] matches InstructionModel::LoadCounter {
            reg: r1,
            value: v1,
        } ==> (out[q] matches InstructionModel::LoadCounter { reg: r2, value: v2 } ==> r1 != r2))
    &&& forall|p: int|
        #![trigger out[p]]
        0 <= p < out.len() ==> (out[p] matches InstructionModel::Jnz { reg, label } ==> exists|
            q: int,
        |
            0 <= q < out.len() && out[q] == InstructionModel::Label(label))
}

/// The lowering of one command generates well-formed, collision-free names
/// numbered within its own counter range.
proof fn lemma_lower_cmd_names(c: CommandModel, n: nat)
    ensures
        names_ok(lower_cmd(c, n).0, n, lower_cmd(c, n).1),
    decreases c, 1int,
{
    lemma_lower_cmd_counter(c, n);
    match c {
        CommandModel::Move { direction, distance } => {
            let out = lower_cmd(c, n).0;
            if direction == "forward"@ && distance >= 1 {
                assert(is_gen_label(move_label(n), n));
                assert(is_gen_reg(mv_reg(n), n));
                assert forall|p: int|
                    0 <= p < out.len() implies (#[trigger] out[p]) matches
                    InstructionModel::Jnz { reg, label } ==> exists|q: int|
                    0 <= q < out.len() && out[q] == InstructionModel::Label(label) by {
                    if let InstructionModel::Jnz { reg, label } = out[p] {
                        assert(out[1] == InstructionModel::Label(move_label(n)));
                    }
                }
            }
        },
        CommandModel::Rotate { section, angle } => {
            let out = lower_cmd(c, n).0;
            if section == Section::Body && abs(angle) >= 1 {
                assert(is_gen_label(turn_label(n), n));
                assert(is_gen_reg(rot_reg(n), n));
                assert forall|p: int|
                    0 <= p < out.len() implies (#[trigger] out[p]) matches
                    InstructionModel::Jnz { reg, label } ==> exists|q: int|
                    0 <= q < out.len() && out[q] == InstructionModel::Label(label) by {
                    if let InstructionModel::Jnz { reg, label } = out[p] {
                        assert(out[1] == InstructionModel::Label(turn_label(n)));
                    }
                }
            }
        },
        CommandModel::Scan => {},
        CommandModel::Fire => {},
        CommandModel::Loop { block } => {
            assert(decreases_to!(c => block));
            lemma_lower_cmds_names(block, n + 1);
            lemma_lower_cmds_counter(block, n + 1);
            let inner = lower_cmds(block, n + 1);
            let out = lower_cmd(c, n).0;
            let hi = lower_cmd(c, n).1;
            assert(out.len() == 2 + inner.0.len());
            assert(out[0] == InstructionModel::Label(loop_label(n)));
            assert(out[out.len() - 1] == (InstructionModel::Jnz {
                reg: "always"@,
                label: loop_label(n),
            }));
            assert(is_gen_label(loop_label(n), n));
            assert forall|p: int|
                0 <= p < out.len() implies ((#[trigger] out[p]) matches InstructionModel::Label(
                l,
            ) ==> gen_label_in(l, n, hi)) && (out[p] matches InstructionModel::LoadCounter {
                reg,
                value,
            } ==> gen_reg_in(reg, n, hi)) by {
                if 1 <= p < out.len() - 1 {
                    assert(out[p] == inner.0[p - 1]);
                }
            }
            assert forall|p: int, q: int|
                0 <= p < q < out.len() implies ((#[trigger] out[p]) matches
                InstructionModel::Label(l1) ==> ((#[trigger] out[q]) matches
                InstructionModel::Label(l2) ==> l1 != l2)) && (out[p] matches
                InstructionModel::LoadCounter { reg: r1, value: v1 } ==> (out[q] matches
                InstructionModel::LoadCounter { reg: r2, value: v2 } ==> r1 != r2)) by {
                if 1 <= p < out.len() - 1 {
                    assert(out[p] == inner.0[p - 1]);
                }
                if 1 <= q < out.len() - 1 {
                    assert(out[q] == inner.0[q - 1]);
                }
                if p == 0 && 1 <= q < out.len() - 1 {
                    if let InstructionModel::Label(l2) = out[q] {
                        let m2 = choose|m: nat| n + 1 <= m < inner.1 && is_gen_label(l2, m);
                        lemma_gen_label_distinct(loop_label(n), l2, n, m2);
                    }
                }
            }
            assert forall|p: int|
                0 <= p < out.len() implies ((#[trigger] out[p]) matches InstructionModel::Jnz {
                reg,
                label,
            } ==> exists|q: int| 0 <= q < out.len() && out[q] == InstructionModel::Label(label)) by {
                if let InstructionModel::Jnz { reg, label } = out[p] {
                    if p == out.len() - 1 {
                        assert(out[0] == InstructionModel::Label(loop_label(n)));
                    } else {
                        assert(out[p] == inner.0[p - 1]);
                        let q0 = choose|q: int|
                            0 <= q < inner.0.len() && inner.0[q] == InstructionModel::Label(label);
                        assert(out[q0 + 1] == InstructionModel::Label(label));
                    }
                }
            }
        },
    }
}

/// The lowering of a command sequence generates collision-free names
/// numbered within its own counter range.
proof fn lemma_lower_cmds_names(cs: Seq<CommandModel>, n: nat)
    ensures
        names_ok(lower_cmds(cs, n).0, n, lower_cmds(cs, n).1),
    decreases cs, 0int,
{
    lemma_lower_cmds_counter(cs, n);
    if cs.len() > 0 {
        let head = lower_cmd(cs[0], n);
        let tail = lower_cmds(cs.subrange(1, cs.len() as int), head.1);
        let out = lower_cmds(cs, n).0;
        let hi = lower_cmds(cs, n).1;
        lemma_lower_cmd_names(cs[0], n);
        lemma_lower_cmd_counter(cs[0], n);
        assert(cs.drop_first() =~= cs.subrange(1, cs.len() as int));
        lemma_lower_cmds_names(cs.subrange(1, cs.len() as int), head.1);
        lemma_lower_cmds_counter(cs.subrange(1, cs.len() as int), head.1);
        assert(out == head.0 + tail.0);
        assert(hi == tail.1);
        assert forall|p: int|
            0 <= p < out.len() implies ((#[trigger] out[p]) matches InstructionModel::Label(l)
            ==> gen_label_in(l, n, hi)) && (out[p] matches InstructionModel::LoadCounter {
            reg,
            value,
        } ==> gen_reg_in(reg, n, hi)) by {
            if p < head.0.len() {
                assert(out[p] == head.0[p]);
            } else {
                assert(out[p] == tail.0[p - head.0.len()]);
            }
        }
        assert forall|p: int, q: int|
            0 <= p < q < out.len() implies ((#[trigger] out[p]) matches InstructionModel::Label(
            l1,
        ) ==> ((#[trigger] out[q]) matches InstructionModel::Label(l2) ==> l1 != l2)) && (out[p]
            matches InstructionModel::LoadCounter { reg: r1, value: v1 } ==> (out[q] matches
            InstructionModel::LoadCounter { reg: r2, value: v2 } ==> r1 != r2)) by {
            if p < head.0.len() {
                assert(out[p] == head.0[p]);
            } else {
                assert(out[p] == tail.0[p - head.0.len()]);
            }
            if q < head.0.len() {
                assert(out[q] == head.0[q]);
            } else {
                assert(out[q] == tail.0[q - head.0.len()]);
            }
            if p < head.0.len() && q >= head.0.len() {
                if let InstructionModel::Label(l1) = out[p] {
                    if let InstructionModel::Label(l2) = out[q] {
                        let m1 = choose|m: nat| n <= m < head.1 && is_gen_label(l1, m);
                        let m2 = choose|m: nat| head.1 <= m < tail.1 && is_gen_label(l2, m);
                        lemma_gen_label_distinct(l1, l2, m1, m2);
                    }
                }
                if let InstructionModel::LoadCounter { reg: r1, value: v1 } = out[p] {
                    if let InstructionModel::LoadCounter { reg: r2, value: v2 } = out[q] {
                        let m1 = choose|m: nat| n <= m < head.1 && is_gen_reg(r1, m);
                        let m2 = choose|m: nat| head.1 <= m < tail.1 && is_gen_reg(r2, m);
                        lemma_gen_reg_distinct(r1, r2, m1, m2);
                    }
                }
            }
        }
        assert forall|p: int|
            0 <= p < out.len() implies ((#[trigger] out[p]) matches InstructionModel::Jnz {
            reg,
            label,
        } ==> exists|q: int| 0 <= q < out.len() && out[q] == InstructionModel::Label(label)) by {
            if let InstructionModel::Jnz { reg, label } = out[p] {
                if p < head.0.len() {
                    assert(out[p] == head.0[p]);
                    let q0 = choose|q: int|
                        0 <= q < head.0.len() && head.0[q] == InstructionModel::Label(label);
                    assert(out[q0] == InstructionModel::Label(label));
                } else {
                    assert(out[p] == tail.0[p - head.0.len()]);
                    let q0 = choose|q: int|
                        0 <= q < tail.0.len() && tail.0[q] == InstructionModel::Label(label);
                    assert(out[q0 + head.0.len()] == InstructionModel::Label(label));
                }
            }
        }
    }
}

/// In one compiled program the generated names never collide: distinct
/// label instructions carry distinct labels, distinct load instructions
/// carry distinct counter registers, and every conditional jump's label is
/// carried by exactly one label instruction of the program.
pub proof fn lemma_generated_names_unique(cs: Seq<CommandModel>)
    ensures
        forall|p: int, q: int|
            #![trigger translate_spec(cs)[p], translate_spec(cs)[q]]
            0 <= p < q < translate_spec(cs).len() ==> (translate_spec(cs)[p] matches
                InstructionModel::Label(l1) ==> (translate_spec(cs)[q] matches
                InstructionModel::Label(l2) ==> l1 != l2)),
        forall|p: int, q: int|
            #![trigger translate_spec(cs)[p], translate_spec(cs)[q]]
            0 <= p < q < translate_spec(cs).len() ==> (translate_spec(cs)[p] matches
                InstructionModel::LoadCounter { reg: r1, value: v1 } ==> (translate_spec(cs)[q]
                matches InstructionModel::LoadCounter { reg: r2, value: v2 } ==> r1 != r2)),
        forall|p: int|
            #![trigger translate_spec(cs)[p]]
            0 <= p < translate_spec(cs).len() ==> (translate_spec(cs)[p] matches
                InstructionModel::Jnz { reg, label } ==> exists|q: int|
                0 <= q < translate_spec(cs).len() && translate_spec(cs)[q]
                    == InstructionModel::Label(label)),
{
    lemma_lower_cmds_names(cs, 0);
}

/// Lowers the commands at the back of `out`, starting the name counter at
/// `n`; returns the counter for the next construct.
fn lower_into(cmds: &Vec<Command>, n: u128, out: &mut Vec<Instruction>) -> (r: u128)
    requires
        cmds_sections_ok(cmds.deep_view()),
        n as nat <= old(out).len() + 1,
    ensures
        final(out).deep_view() == old(out).deep_view() + lower_cmds(cmds.deep_view(), n as nat).0,
        r as nat == lower_cmds(cmds.deep_view(), n as nat).1,
        r as nat <= final(out).len() + 1,
    decreases cmds@,
{
    let ghost cv = cmds.deep_view();
    let ghost whole = lower_cmds(cv, n as nat);
    let mut i: usize = 0;
    let mut counter: u128 = n;
    proof {
        assert(cv.skip(0) =~= cv);
        assert(out.deep_view() + lower_cmds(cv, n as nat).0 =~= old(out).deep_view() + lower_cmds(
            cv,
            n as nat,
        ).0);
    }
    while i < cmds.len()
        invariant
            cv == cmds.deep_view(),
            cmds_sections_ok(cv),
            whole == lower_cmds(cv, n as nat),
            0 <= i <= cmds.len(),
            cmds.len() == cv.len(),
            counter as nat <= out.len() + 1,
            out.len() >= old(out).len(),
            out.deep_view() + lower_cmds(cv.skip(i as int), counter as nat).0 == old(
                out,
            ).deep_view() + whole.0,
            lower_cmds(cv.skip(i as int), counter as nat).1 == whole.1,
        decreases cmds.len() - i,
    {
        let ghost rest = cv.skip(i as int);
        proof {
            assert(rest[0] == cv[i as int]);
            assert(rest.drop_first() =~= cv.skip(i as int + 1));
            assert(cmd_sections_ok(cv[i as int]));
        }
        let ghost out_before = *out;
        let ghost counter_before = counter as nat;
        match &cmds[i] {
            Command::Move { direction, distance } => {
                if str_eq(direction.as_str(), "forward") && *distance >= 1 {
                    let reg = name_with_index("mv", counter);
                    let label = name_with_index("move_loop", counter);
                    out.push(Instruction::LoadCounter { reg: reg.clone(), value: *distance as i64 });
                    out.push(Instruction::Label(label.clone()));
                    out.push(Instruction::MoveForward);
                    out.push(Instruction::Dec { reg: reg.clone() });
                    out.push(Instruction::Jnz { reg: reg, label: label });
                    counter = counter + 1;
                    proof {
                        let emitted = lower_cmd(cv[i as int], counter_before).0;
                        assert(emitted.len() == 5);
                        assert((out@[out_before@.len() as int + 0]).deep_view() =~~= emitted[0]);
                        assert((out@[out_before@.len() as int + 1]).deep_view() =~~= emitted[1]);
                        assert((out@[out_before@.len() as int + 2]).deep_view() =~~= emitted[2]);
                        assert((out@[out_before@.len() as int + 3]).deep_view() =~~= emitted[3]);
                        assert((out@[out_before@.len() as int + 4]).deep_view() =~~= emitted[4]);
                        crate::views::lemma_deep_view_extend(out_before, *out, emitted);
                    }
                }
            },
            Command::Rotate { section, angle } => {
                if *section == Section::Body && *angle != 0 {
                    let reg = name_with_index("rot", counter);
                    let label = name_with_index("turn_loop", counter);
                    let turns: i64 = if *angle >= 0 {
                        *angle as i64
                    } else {
                        -(*angle as i64)
                    };
                    out.push(Instruction::LoadCounter { reg: reg.clone(), value: turns });
                    out.push(Instruction::Label(label.clone()));
                    if *angle > 0 {
                        out.push(Instruction::TurnLeft);
                    } else {
                        out.push(Instruction::TurnRight);
                    }
                    out.push(Instruction::Dec { reg: reg.clone() });
                    out.push(Instruction::Jnz { reg: reg, label: label });
                    counter = counter + 1;
                    proof {
                        let emitted = lower_cmd(cv[i as int], counter_before).0;
                        assert(emitted.len() == 5);
                        assert((out@[out_before@.len() as int + 0]).deep_view() =~~= emitted[0]);
                        assert((out@[out_before@.len() as int + 1]).deep_view() =~~= emitted[1]);
                        assert((out@[out_before@.len() as int + 2]).deep_view() =~~= emitted[2]);
                        assert((out@[out_before@.len() as int + 3]).deep_view() =~~= emitted[3]);
                        assert((out@[out_before@.len() as int + 4]).deep_view() =~~= emitted[4]);
                        crate::views::lemma_deep_view_extend(out_before, *out, emitted);
                    }
                }
            },
            Command::Scan => {
                proof {
                    assert(out.deep_view() =~= out_before.deep_view() + lower_cmd(
                        cv[i as int],
                        counter_before,
                    ).0);
                }
            },
            Command::Fire => {
                out.push(Instruction::Fire);
                proof {
                    let emitted = lower_cmd(cv[i as int], counter_before).0;
                    assert(emitted.len() == 1);
                    assert((out@[out_before@.len() as int + 0]).deep_view() =~~= emitted[0]);
                    crate::views::lemma_deep_view_extend(out_before, *out, emitted);
                }
            },
            Command::Loop { block } => {
                let label = name_with_index("loop", counter);
                out.push(Instruction::Label(label.clone()));
                proof {
                    lemma_cmds_view_eq(block@);
                    assert(cmds_view(block@) =~= block.deep_view());
                    assert(cv[i as int] matches CommandModel::Loop { block: b } && b
                        == block.deep_view());
                }
                proof {
                    assert((out@[out_before@.len() as int + 0]).deep_view() =~~= InstructionModel::Label(
                        loop_label(counter_before),
                    ));
                    crate::views::lemma_deep_view_extend(
                        out_before,
                        *out,
                        seq![InstructionModel::Label(loop_label(counter_before))],
                    );
                }
                let ghost out_mid = *out;
                let inner_counter = lower_into(block, counter + 1, out);
                let ghost out_rec = *out;
                out.push(Instruction::Jnz { reg: String::from_str("always"), label: label });
                counter = inner_counter;
                proof {
                    let ghost inner = lower_cmds(block.deep_view(), counter_before + 1);
                    assert((out@[out_rec@.len() as int + 0]).deep_view() =~~= InstructionModel::Jnz {
                        reg: "always"@,
                        label: loop_label(counter_before),
                    });
                    crate::views::lemma_deep_view_extend(
                        out_rec,
                        *out,
                        seq![
                            InstructionModel::Jnz {
                                reg: "always"@,
                                label: loop_label(counter_before),
                            },
                        ],
                    );
                    assert(out.deep_view() =~= out_before.deep_view() + (seq![
                        InstructionModel::Label(loop_label(counter_before)),
                    ] + inner.0 + seq![
                        InstructionModel::Jnz { reg: "always"@, label: loop_label(counter_before) },
                    ]));
                }
            },
        }
        proof {
            assert(lower_cmds(rest, counter_before).0 == lower_cmd(cv[i as int], counter_before).0
                + lower_cmds(cv.skip(i as int + 1), counter as nat).0);
            assert(out_before.deep_view() + (lower_cmd(cv[i as int], counter_before).0
                + lower_cmds(cv.skip(i as int + 1), counter as nat).0) =~= (out_before.deep_view()
                + lower_cmd(cv[i as int], counter_before).0) + lower_cmds(
                cv.skip(i as int + 1),
                counter as nat,
            ).0);
        }
        i = i + 1;
    }
    proof {
        assert(cv.skip(cv.len() as int) =~= Seq::<CommandModel>::empty());
        assert(out.deep_view() + Seq::<InstructionModel>::empty() =~= out.deep_view());
    }
    counter
}

/// Tests whether every rotation in the tree targets the body section, the
/// only section the lowering supports.  A caller that wants to degrade
/// gracefully checks this before lowering.
pub fn sections_supported(commands: &Vec<Command>) -> (r: bool)
    ensures
        r == cmds_sections_ok(commands.deep_view()),
    decreases commands@,
{
    let ghost cv = commands.deep_view();
    let mut i: usize = 0;
    while i < commands.len()
        invariant
            cv == commands.deep_view(),
            cv.len() == commands.len(),
            0 <= i <= commands.len(),
            forall|j: int| 0 <= j < i ==> cmd_sections_ok(#[trigger] cv[j]),
        decreases commands.len() - i,
    {
        match &commands[i] {
            Command::Rotate { section, angle: _ } => {
                if *section != Section::Body {
                    proof {
                        assert(!cmd_sections_ok(cv[i as int]));
                    }
                    return false;
                }
            },
            Command::Loop { block } => {
                proof {
                    assert(decreases_to!(commands@ => commands@[i as int]));
                    lemma_cmds_view_eq(block@);
                    assert(cmds_view(block@) =~= block.deep_view());
                }
                if !sections_supported(block) {
                    proof {
                        assert(!cmd_sections_ok(cv[i as int]));
                    }
                    return false;
                }
            },
            _ => {},
        }
        i = i + 1;
    }
    true
}

/// Lowers a command tree into a flat instruction sequence.
///
/// The result is exactly [`translate_spec`] of the tree.  Every rotation must
/// target [`Section::Body`]: the lowering does not support the other
/// sections, and a caller wanting to degrade gracefully validates the tree
/// before lowering.
pub fn translate_commands_to_instructions(commands: &Vec<Command>) -> (instructions: Vec<
    Instruction,
>)
    requires
        cmds_sections_ok(commands.deep_view()),
    ensures
        instructions.deep_view() == translate_spec(commands.deep_view()),
{
    let mut instructions: Vec<Instruction> = Vec::new();
    let ghost empty = instructions;
    let _ = lower_into(commands, 0, &mut instructions);
    proof {
        assert(empty.deep_view() =~= Seq::<InstructionModel>::empty());
        assert(Seq::<InstructionModel>::empty() + translate_spec(commands.deep_view())
            =~= translate_spec(commands.deep_view()));
    }
    instructions
}

} // verus!
