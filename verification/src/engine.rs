//! Tick-driven execution engine.
//!
//! Each robot owns one compiled instruction sequence, an instruction pointer
//! and a bank of named counter registers.  One step executes the instruction
//! under the pointer: movement and turning work on an integer grid, with the
//! heading counted in quarter turns; jumps resolve their label by scanning
//! the instruction sequence for the first matching label and fall through
//! silently when no label matches.  A pointer past the end of the sequence is
//! terminal: the step changes nothing.

use vstd::prelude::*;
use vstd::string::*;

use crate::ast::{Instruction, InstructionModel};
use crate::text::str_eq;

verus! {

/// The register bank as a map: later bindings win.
spec fn reg_map(s: Seq<(String, i64)>) -> Map<Seq<char>, int>
    decreases s.len(),
{
    if s.len() == 0 {
        Map::empty()
    } else {
        reg_map(s.drop_last()).insert(s.last().0@, s.last().1 as int)
    }
}

/// A bank of named counter registers with signed 64-bit values.
///
/// Viewed as a map from register name to value; setting a name again
/// overwrites its value, and insertion order carries no meaning.
pub struct Registers {
    entries: Vec<(String, i64)>,
}

impl View for Registers {
    type V = Map<Seq<char>, int>;

    closed spec fn view(&self) -> Map<Seq<char>, int> {
        reg_map(self.entries@)
    }
}

/// A name is in the map exactly when some entry carries it.
proof fn lemma_reg_map_contains(s: Seq<(String, i64)>, k: Seq<char>)
    ensures
        reg_map(s).contains_key(k) <==> exists|j: int| 0 <= j < s.len() && (#[trigger] s[j]).0@
            == k,
    decreases s.len(),
{
    if s.len() > 0 {
        lemma_reg_map_contains(s.drop_last(), k);
        if s.last().0@ == k {
            assert((s[s.len() - 1]).0@ == k);
        } else {
            if exists|j: int| 0 <= j < s.len() && (#[trigger] s[j]).0@ == k {
                let j = choose|j: int| 0 <= j < s.len() && (#[trigger] s[j]).0@ == k;
                if reg_map(s).contains_key(k) {
                } else {
                    assert(s.drop_last()[j] == s[j]);
                }
            }
        }
    }
}

/// The map value of a key is the value of its last entry.
proof fn lemma_reg_map_value(s: Seq<(String, i64)>, j: int)
    requires
        0 <= j < s.len(),
        forall|m: int| j < m < s.len() ==> (#[trigger] s[m]).0@ != s[j].0@,
    ensures
        reg_map(s).contains_key(s[j].0@),
        reg_map(s)[s[j].0@] == s[j].1 as int,
    decreases s.len(),
{
    if j < s.len() - 1 {
        assert(s.drop_last()[j] == s[j]);
        assert forall|m: int| j < m < s.drop_last().len() implies (#[trigger] s.drop_last()[m]).0@
            != s.drop_last()[j].0@ by {
            assert(s.drop_last()[m] == s[m]);
        }
        lemma_reg_map_value(s.drop_last(), j);
        assert((s[s.len() - 1]).0@ != s[j].0@);
    }
}

/// Updating the last entry that carries a key updates the key in the map.
proof fn lemma_reg_map_update(s: Seq<(String, i64)>, j: int, e: (String, i64))
    requires
        0 <= j < s.len(),
        e.0@ == s[j].0@,
        forall|m: int| j < m < s.len() ==> (#[trigger] s[m]).0@ != s[j].0@,
    ensures
        reg_map(s.update(j, e)) == reg_map(s).insert(e.0@, e.1 as int),
    decreases s.len(),
{
    if j == s.len() - 1 {
        assert(s.update(j, e).drop_last() =~= s.drop_last());
        assert(reg_map(s.update(j, e)) =~= reg_map(s).insert(e.0@, e.1 as int));
    } else {
        assert(s.update(j, e).drop_last() =~= s.drop_last().update(j, e));
        assert(s.drop_last()[j] == s[j]);
        assert forall|m: int| j < m < s.drop_last().len() implies (#[trigger] s.drop_last()[m]).0@
            != s.drop_last()[j].0@ by {
            assert(s.drop_last()[m] == s[m]);
        }
        lemma_reg_map_update(s.drop_last(), j, e);
        assert((s[s.len() - 1]).0@ != s[j].0@);
        assert(reg_map(s.update(j, e)) =~= reg_map(s).insert(e.0@, e.1 as int));
    }
}

impl Registers {
    /// An empty register bank.
    pub fn new() -> (r: Registers)
        ensures
            r@ == Map::<Seq<char>, int>::empty(),
    {
        Registers { entries: Vec::new() }
    }

    /// The value of a register, if it was ever set.
    pub fn get(&self, name: &str) -> (r: Option<i64>)
        ensures
            (match r {
                Some(v) => self@.contains_key(name@) && self@[name@] == v as int,
                None => !self@.contains_key(name@),
            }),
    {
        let mut j: usize = self.entries.len();
        while j > 0
            invariant
                0 <= j <= self.entries@.len(),
                forall|m: int| j <= m < self.entries@.len() ==> (#[trigger] self.entries@[m]).0@
                    != name@,
            decreases j,
        {
            j = j - 1;
            let e = &self.entries[j];
            if str_eq(e.0.as_str(), name) {
                proof {
                    lemma_reg_map_value(self.entries@, j as int);
                }
                return Some(e.1);
            }
        }
        proof {
            lemma_reg_map_contains(self.entries@, name@);
        }
        None
    }

    /// Sets a register: insert or overwrite.
    pub fn set(&mut self, name: String, value: i64)
        ensures
            final(self)@ == old(self)@.insert(name@, value as int),
    {
        let ghost entries0 = self.entries@;
        let mut j: usize = self.entries.len();
        while j > 0
            invariant
                self.entries@ == entries0,
                entries0 == old(self).entries@,
                0 <= j <= entries0.len(),
                forall|m: int| j <= m < entries0.len() ==> (#[trigger] entries0[m]).0@ != name@,
            decreases j,
        {
            j = j - 1;
            let found = {
                let e = &self.entries[j];
                str_eq(e.0.as_str(), name.as_str())
            };
            if found {
                proof {
                    lemma_reg_map_update(entries0, j as int, (name, value));
                }
                self.entries[j] = (name, value);
                return ;
            }
        }
        self.entries.push((name, value));
        proof {
            assert(self.entries@.drop_last() =~= entries0);
        }
    }
}

/// Mathematical image of a robot's execution state.
#[verifier::ext_equal]
pub ghost struct RobotModel {
    pub id: int,
    pub position: (int, int),
    pub heading: int,
    pub health: int,
    pub instruction_queue: Seq<InstructionModel>,
    pub ip: int,
    pub registers: Map<Seq<char>, int>,
}

/// The execution state of one robot.
pub struct Robot {
    /// Identifier, given by the simulation.
    pub id: usize,
    /// Position on the integer grid.
    pub position: (i64, i64),
    /// Heading in quarter turns; only its value modulo four matters.
    pub heading: u8,
    /// Hit points; a robot at zero or below is skipped by the tick.
    pub health: i32,
    /// The compiled program, immutable during execution.
    pub instruction_queue: Vec<Instruction>,
    /// Index of the next instruction.
    pub ip: usize,
    /// Counter registers.
    pub registers: Registers,
}

impl View for Robot {
    type V = RobotModel;

    open spec fn view(&self) -> RobotModel {
        RobotModel {
            id: self.id as int,
            position: (self.position.0 as int, self.position.1 as int),
            heading: self.heading as int,
            health: self.health as int,
            instruction_queue: self.instruction_queue.deep_view(),
            ip: self.ip as int,
            registers: self.registers@,
        }
    }
}

/// Eastward component of a unit step with the given heading.
pub open spec fn dir_dx(h: int) -> int {
    if h % 4 == 0 {
        1
    } else if h % 4 == 2 {
        -1
    } else {
        0
    }
}

/// Southward component of a unit step with the given heading.
pub open spec fn dir_dy(h: int) -> int {
    if h % 4 == 1 {
        1
    } else if h % 4 == 3 {
        -1
    } else {
        0
    }
}

/// Addition clamped to the signed 64-bit range.
pub open spec fn sat_add_i64(a: int, b: int) -> int {
    if a + b > i64::MAX {
        i64::MAX as int
    } else if a + b < i64::MIN {
        i64::MIN as int
    } else {
        a + b
    }
}

/// Decrement that wraps at the bottom of the signed 64-bit range.
pub open spec fn wrap_dec_i64(v: int) -> int {
    if v == i64::MIN {
        i64::MAX as int
    } else {
        v - 1
    }
}

/// Index of the first label instruction carrying `name`, scanning from `i`.
pub open spec fn find_label_from(q: Seq<InstructionModel>, name: Seq<char>, i: int) -> Option<int>
    recommends
        0 <= i,
    decreases q.len() - i,
{
    if i < 0 || i >= q.len() {
        None
    } else if q[i] matches InstructionModel::Label(l) && l == name {
        Some(i)
    } else {
        find_label_from(q, name, i + 1)
    }
}

/// Index of the first label instruction carrying `name`.
pub open spec fn find_label_spec(q: Seq<InstructionModel>, name: Seq<char>) -> Option<int> {
    find_label_from(q, name, 0)
}

/// What label resolution yields: the index found is the first instruction
/// that is a label carrying the name, and nothing is found only when no
/// such label exists at all.
pub proof fn lemma_find_label_properties(q: Seq<InstructionModel>, name: Seq<char>)
    ensures
        (match find_label_spec(q, name) {
            Some(t) => 0 <= t < q.len() && q[t] == InstructionModel::Label(name) && forall|p: int|
                0 <= p < t ==> q[p] != InstructionModel::Label(name),
            None => forall|p: int| 0 <= p < q.len() ==> q[p] != InstructionModel::Label(name),
        }),
{
    lemma_find_label_from_properties(q, name, 0);
}

proof fn lemma_find_label_from_properties(q: Seq<InstructionModel>, name: Seq<char>, i: int)
    requires
        0 <= i,
    ensures
        (match find_label_from(q, name, i) {
            Some(t) => i <= t < q.len() && q[t] == InstructionModel::Label(name) && forall|p: int|
                i <= p < t ==> q[p] != InstructionModel::Label(name),
            None => forall|p: int| i <= p < q.len() ==> q[p] != InstructionModel::Label(name),
        }),
    decreases q.len() - i,
{
    if i < q.len() {
        if q[i] matches InstructionModel::Label(l) && l == name {
        } else {
            lemma_find_label_from_properties(q, name, i + 1);
        }
    }
}

/// Whether a jump on `reg` is taken: the reserved name `always` jumps
/// regardless of any register state, any other name jumps while its register
/// holds a nonzero value.
pub open spec fn jnz_taken(registers: Map<Seq<char>, int>, reg: Seq<char>) -> bool {
    reg == "always"@ || (registers.contains_key(reg) && registers[reg] != 0)
}

/// One step of the engine: the meaning of executing the instruction under
/// the instruction pointer.  A pointer outside the sequence changes nothing.
pub open spec fn step_spec(r: RobotModel) -> RobotModel {
    if 0 <= r.ip < r.instruction_queue.len() {
        match r.instruction_queue[r.ip] {
            InstructionModel::TurnLeft => RobotModel {
                heading: (r.heading % 4 + 3) % 4,
                ip: r.ip + 1,
                ..r
            },
            InstructionModel::TurnRight => RobotModel {
                heading: (r.heading % 4 + 1) % 4,
                ip: r.ip + 1,
                ..r
            },
            InstructionModel::MoveForward => RobotModel {
                position: (
                    sat_add_i64(r.position.0, dir_dx(r.heading)),
                    sat_add_i64(r.position.1, dir_dy(r.heading)),
                ),
                ip: r.ip + 1,
                ..r
            },
            InstructionModel::Fire => RobotModel { ip: r.ip + 1, ..r },
            InstructionModel::LoadCounter { reg, value } => RobotModel {
                registers: r.registers.insert(reg, value),
                ip: r.ip + 1,
                ..r
            },
            InstructionModel::Dec { reg } => RobotModel {
                registers: if r.registers.contains_key(reg) {
                    r.registers.insert(reg, wrap_dec_i64(r.registers[reg]))
                } else {
                    r.registers
                },
                ip: r.ip + 1,
                ..r
            },
            InstructionModel::Jnz { reg, label } => RobotModel {
                ip: if jnz_taken(r.registers, reg) {
                    match find_label_spec(r.instruction_queue, label) {
                        Some(t) => t,
                        None => r.ip + 1,
                    }
                } else {
                    r.ip + 1
                },
                ..r
            },
            InstructionModel::Label(_) => RobotModel { ip: r.ip + 1, ..r },
        }
    } else {
        r
    }
}

/// A copy of an instruction, with the same mathematical image.
fn clone_instruction(instr: &Instruction) -> (r: Instruction)
    ensures
        r.deep_view() == instr.deep_view(),
{
    match instr {
        Instruction::TurnLeft => Instruction::TurnLeft,
        Instruction::TurnRight => Instruction::TurnRight,
        Instruction::MoveForward => Instruction::MoveForward,
        Instruction::Fire => Instruction::Fire,
        Instruction::LoadCounter { reg, value } => Instruction::LoadCounter {
            reg: reg.clone(),
            value: *value,
        },
        Instruction::Dec { reg } => Instruction::Dec { reg: reg.clone() },
        Instruction::Jnz { reg, label } => Instruction::Jnz {
            reg: reg.clone(),
            label: label.clone(),
        },
        Instruction::Label(l) => Instruction::Label(l.clone()),
    }
}

/// Addition clamped to the signed 64-bit range.
fn sat_add(a: i64, b: i64) -> (r: i64)
    ensures
        r as int == sat_add_i64(a as int, b as int),
{
    match a.checked_add(b) {
        Some(v) => v,
        None => {
            if b >= 0 {
                i64::MAX
            } else {
                i64::MIN
            }
        },
    }
}

/// Index of the first label instruction carrying `name`.
fn find_label(instructions: &Vec<Instruction>, name: &str) -> (r: Option<usize>)
    ensures
        find_label_spec(instructions.deep_view(), name@) == (match r {
            Some(t) => Some(t as int),
            None => None::<int>,
        }),
{
    let ghost iv = instructions.deep_view();
    let mut j: usize = 0;
    while j < instructions.len()
        invariant
            iv == instructions.deep_view(),
            0 <= j <= instructions.len(),
            iv.len() == instructions.len(),
            find_label_from(iv, name@, 0) == find_label_from(iv, name@, j as int),
        decreases instructions.len() - j,
    {
        match &instructions[j] {
            Instruction::Label(l) => {
                if str_eq(l.as_str(), name) {
                    return Some(j);
                }
            },
            _ => {},
        }
        j = j + 1;
    }
    None
}

/// Executes the instruction under the robot's instruction pointer.
///
/// The new state is exactly [`step_spec`] of the old state: movement,
/// turning, register updates and jumps as the instruction says, and no
/// change at all when the pointer is past the end of the program.
pub fn execute_robot_instruction(robot: &mut Robot)
    ensures
        final(robot)@ == step_spec(old(robot)@),
{
    let ip = robot.ip;
    if ip >= robot.instruction_queue.len() {
        return ;
    }
    let instr = clone_instruction(&robot.instruction_queue[ip]);
    match instr {
        Instruction::TurnLeft => {
            robot.heading = (robot.heading % 4 + 3) % 4;
            robot.ip = ip + 1;
        },
        Instruction::TurnRight => {
            robot.heading = (robot.heading % 4 + 1) % 4;
            robot.ip = ip + 1;
        },
        Instruction::MoveForward => {
            let h = robot.heading % 4;
            let dx: i64 = if h == 0 {
                1
            } else if h == 2 {
                -1
            } else {
                0
            };
            let dy: i64 = if h == 1 {
                1
            } else if h == 3 {
                -1
            } else {
                0
            };
            robot.position = (sat_add(robot.position.0, dx), sat_add(robot.position.1, dy));
            robot.ip = ip + 1;
        },
        Instruction::Fire => {
            robot.ip = ip + 1;
        },
        Instruction::LoadCounter { reg, value } => {
            robot.registers.set(reg, value);
            robot.ip = ip + 1;
        },
        Instruction::Dec { reg } => {
            match robot.registers.get(reg.as_str()) {
                Some(v) => {
                    let nv: i64 = if v == i64::MIN {
                        i64::MAX
                    } else {
                        v - 1
                    };
                    robot.registers.set(reg, nv);
                },
                None => {},
            }
            robot.ip = ip + 1;
        },
        Instruction::Jnz { reg, label } => {
            let jump = if str_eq(reg.as_str(), "always") {
                true
            } else {
                match robot.registers.get(reg.as_str()) {
                    Some(v) => v != 0,
                    None => false,
                }
            };
            if jump {
                match find_label(&robot.instruction_queue, label.as_str()) {
                    Some(t) => {
                        robot.ip = t;
                    },
                    None => {
                        robot.ip = ip + 1;
                    },
                }
            } else {
                robot.ip = ip + 1;
            }
        },
        Instruction::Label(_) => {
            robot.ip = ip + 1;
        },
    }
    proof {
        assert(robot@ =~~= step_spec(old(robot)@));
    }
}


/// The models of a sequence of robots.
pub open spec fn robots_view(rs: Seq<Robot>) -> Seq<RobotModel> {
    Seq::new(rs.len(), |i: int| rs[i]@)
}

/// A live robot steps; a robot at zero health or below is left unchanged.
pub open spec fn step_if_alive(m: RobotModel) -> RobotModel {
    if m.health > 0 {
        step_spec(m)
    } else {
        m
    }
}

/// The robot has just executed a fire instruction: the instruction before
/// its pointer is `Fire`.
pub open spec fn just_fired(m: RobotModel) -> bool {
    1 <= m.ip && m.ip - 1 < m.instruction_queue.len() && m.instruction_queue[m.ip - 1]
        is Fire
}

/// All robots after the stepping pass of one tick.
pub open spec fn stepped_view(rs: Seq<RobotModel>) -> Seq<RobotModel> {
    Seq::new(rs.len(), |i: int| step_if_alive(rs[i]))
}

/// After all robots stepped, robot `i` hits robot `j`: a different, live
/// robot that has just fired from the same position, on a live target.
pub open spec fn shoots(stepped: Seq<RobotModel>, i: int, j: int) -> bool {
    &&& i != j
    &&& 0 <= i < stepped.len()
    &&& stepped[i].health > 0
    &&& just_fired(stepped[i])
    &&& stepped[j].health > 0
    &&& stepped[i].position == stepped[j].position
}

/// Number of robots with index below `upto` that hit robot `j`.
pub open spec fn count_shooters(stepped: Seq<RobotModel>, j: int, upto: int) -> int
    decreases upto,
{
    if upto <= 0 {
        0
    } else {
        count_shooters(stepped, j, upto - 1) + if shoots(stepped, upto - 1, j) {
            1int
        } else {
            0int
        }
    }
}

/// Health after damage, clamped at the bottom of the signed 32-bit range.
pub open spec fn damaged_health(h: int, dmg: int) -> int {
    if h - dmg < i32::MIN {
        i32::MIN as int
    } else {
        h - dmg
    }
}

/// One simulation tick over all robots.
///
/// First every live robot executes one instruction; then, in a second pass
/// over the already-advanced state, every robot that has just fired deals
/// two points of damage to every other live robot at its own position.
pub open spec fn tick_spec(rs: Seq<RobotModel>) -> Seq<RobotModel> {
    Seq::new(
        rs.len(),
        |j: int|
            RobotModel {
                health: damaged_health(
                    stepped_view(rs)[j].health,
                    2 * count_shooters(stepped_view(rs), j, rs.len() as int),
                ),
                ..stepped_view(rs)[j]
            },
    )
}

/// Steps every live robot once, then applies fire damage in a second pass.
///
/// The new states are exactly [`tick_spec`] of the old states: robots are
/// stepped in index order, each mutating only its own state, and damage is
/// computed only after all robots have been stepped, so that firing order
/// within the tick cannot matter.
pub fn tick(robots: &mut Vec<Robot>)
    ensures
        final(robots).len() == old(robots).len(),
        robots_view(final(robots)@) == tick_spec(robots_view(old(robots)@)),
{
    let ghost pre = robots_view(old(robots)@);
    let ghost stepped = stepped_view(pre);
    let n = robots.len();
    let mut i: usize = 0;
    while i < n
        invariant
            n == pre.len(),
            robots@.len() == n,
            pre == robots_view(old(robots)@),
            stepped == stepped_view(pre),
            0 <= i <= n,
            forall|k: int| 0 <= k < i ==> (#[trigger] robots@[k])@ == stepped[k],
            forall|k: int| i <= k < n ==> robots@[k] == old(robots)@[k],
        decreases n - i,
    {
        let ghost before = robots@;
        let mut r = robots.remove(i);
        if r.health > 0 {
            execute_robot_instruction(&mut r);
        }
        robots.insert(i, r);
        proof {
            assert(robots@ =~= before.update(i as int, r));
            assert(before[i as int]@ == pre[i as int]);
            assert(robots@[i as int]@ == stepped[i as int]);
        }
        i = i + 1;
    }
    let mut counts: Vec<usize> = Vec::new();
    let mut j: usize = 0;
    while j < n
        invariant
            n == pre.len(),
            robots@.len() == n,
            stepped.len() == n,
            forall|k: int| 0 <= k < n ==> (#[trigger] robots@[k])@ == stepped[k],
            0 <= j <= n,
            counts@.len() == j,
            forall|m: int| 0 <= m < j ==> (#[trigger] counts@[m]) as int == count_shooters(
                stepped,
                m,
                n as int,
            ),
        decreases n - j,
    {
        let mut cnt: usize = 0;
        let mut s: usize = 0;
        while s < n
            invariant
                n == pre.len(),
                robots@.len() == n,
                stepped.len() == n,
                forall|k: int| 0 <= k < n ==> (#[trigger] robots@[k])@ == stepped[k],
                j < n,
                0 <= s <= n,
                cnt <= s,
                cnt as int == count_shooters(stepped, j as int, s as int),
            decreases n - s,
        {
            let mut hit = false;
            if s != j {
                let shooter_fired = {
                    let ri = &robots[s];
                    ri.health > 0 && ri.ip >= 1 && ri.ip - 1 < ri.instruction_queue.len()
                        && (matches!(&ri.instruction_queue[ri.ip - 1], Instruction::Fire))
                };
                let spos = {
                    let ri = &robots[s];
                    (ri.position.0, ri.position.1)
                };
                let (target_alive, tpos) = {
                    let rj = &robots[j];
                    (rj.health > 0, (rj.position.0, rj.position.1))
                };
                hit = shooter_fired && target_alive && spos.0 == tpos.0 && spos.1 == tpos.1;
                proof {
                    assert(robots@[s as int]@ == stepped[s as int]);
                    assert(robots@[j as int]@ == stepped[j as int]);
                    assert(hit == shoots(stepped, s as int, j as int));
                }
            }
            if hit {
                cnt = cnt + 1;
            }
            s = s + 1;
        }
        counts.push(cnt);
        j = j + 1;
    }
    let mut j: usize = 0;
    while j < n
        invariant
            n == pre.len(),
            robots@.len() == n,
            pre == robots_view(old(robots)@),
            stepped == stepped_view(pre),
            stepped.len() == n,
            counts@.len() == n,
            forall|m: int| 0 <= m < n ==> (#[trigger] counts@[m]) as int == count_shooters(
                stepped,
                m,
                n as int,
            ),
            0 <= j <= n,
            forall|k: int| 0 <= k < j ==> (#[trigger] robots@[k])@ == tick_spec(pre)[k],
            forall|k: int| j <= k < n ==> (#[trigger] robots@[k])@ == stepped[k],
        decreases n - j,
    {
        let ghost before = robots@;
        let mut r = robots.remove(j);
        let dmg: i128 = 2 * (counts[j] as i128);
        let h: i128 = (r.health as i128) - dmg;
        r.health = if h < (i32::MIN as i128) {
            i32::MIN
        } else {
            h as i32
        };
        robots.insert(j, r);
        proof {
            assert(robots@ =~= before.update(j as int, r));
            assert(robots@[j as int]@ =~~= tick_spec(pre)[j as int]);
        }
        j = j + 1;
    }
    proof {
        assert(robots_view(robots@) =~= tick_spec(pre));
    }
}

} // verus!
