use vstd::prelude::*;
use crate::instruction::{Instruction, InsnView, Operand, Port};
use crate::parse::{ExeView, Executable, find_label, jump_ok};
use crate::port::{CpuWritePorts, CpuWritePortsReader, PortsView, fabric_view, take_through};

verus! {

/// What a node is doing: running, waiting to read from a port, or waiting
/// for a neighbour to take the value it wrote.
#[derive(Clone, Copy, Debug, PartialEq, Eq, Structural)]
pub enum ExecState {
    EXEC,
    READ(Port),
    WRITE(Port),
}

impl Default for ExecState {
    fn default() -> (r: Self)
        ensures
            r == ExecState::EXEC,
    {
        ExecState::EXEC
    }
}

/// The registers of a node.
#[derive(Debug)]
pub struct CpuState {
    pub acc: i32,
    pub bak: i32,
    pub pc: usize,
    pub pending_write: Option<(Port, i32)>,
    pub exec_state: ExecState,
}

/// A missing handle, or one on a physical slot of one of `n` nodes.
pub open spec fn handle_ok(h: Option<CpuWritePortsReader>, n: nat) -> bool {
    h matches Some(r) ==> r.ports < n && r.active.is_cardinal()
}

fn check_handle(h: Option<CpuWritePortsReader>, n: usize) -> (r: bool)
    ensures
        r == handle_ok(h, n as nat),
{
    match h {
        Some(x) => x.ports < n && match x.active {
            Port::Any | Port::Last => false,
            _ => true,
        },
        None => true,
    }
}

/// The handles through which a node reads from its four neighbours; a
/// missing handle is a direction nothing is wired to, which never has a
/// value.
#[derive(Clone, Copy, Debug)]
pub struct CpuReadPorts {
    pub up: Option<CpuWritePortsReader>,
    pub down: Option<CpuWritePortsReader>,
    pub left: Option<CpuWritePortsReader>,
    pub right: Option<CpuWritePortsReader>,
}

impl CpuReadPorts {
    /// The handle for direction `d`.
    pub open spec fn at(self, d: Port) -> Option<CpuWritePortsReader> {
        match d {
            Port::Up => self.up,
            Port::Down => self.down,
            Port::Left => self.left,
            Port::Right => self.right,
            _ => None,
        }
    }

    /// Every handle points at a slot of one of the `n` nodes of the fabric.
    pub open spec fn wired(self, n: nat) -> bool {
        &&& handle_ok(self.up, n)
        &&& handle_ok(self.down, n)
        &&& handle_ok(self.left, n)
        &&& handle_ok(self.right, n)
    }

    /// What a read from direction `d` gets, and the fabric after it.
    pub open spec fn take(self, f: Seq<PortsView>, d: Port) -> (Option<i32>, Seq<PortsView>) {
        match self.at(d) {
            Some(r) => take_through(f, r),
            None => (None, f),
        }
    }

    /// What a read from `p` gets, the fabric after it, and the new `last`:
    /// `ANY` tries `UP`, `DOWN`, `LEFT`, `RIGHT` in turn and records the
    /// first that has a value; `LAST` reads from `last`.
    pub open spec fn read_spec(self, f: Seq<PortsView>, p: Port, last: Port) -> (Option<i32>, Seq<PortsView>, Port) {
        match p {
            Port::Any => {
                let (a, f1) = self.take(f, Port::Up);
                if a is Some {
                    (a, f1, Port::Up)
                } else {
                    let (b, f2) = self.take(f1, Port::Down);
                    if b is Some {
                        (b, f2, Port::Down)
                    } else {
                        let (c, f3) = self.take(f2, Port::Left);
                        if c is Some {
                            (c, f3, Port::Left)
                        } else {
                            let (d, f4) = self.take(f3, Port::Right);
                            if d is Some {
                                (d, f4, Port::Right)
                            } else {
                                (None, f4, last)
                            }
                        }
                    }
                }
            },
            Port::Last => {
                let (x, f1) = self.take(f, last);
                (x, f1, last)
            },
            _ => {
                let (x, f1) = self.take(f, p);
                (x, f1, last)
            },
        }
    }

    /// No handle is wired.
    pub fn unconnected() -> (r: CpuReadPorts)
        ensures
            r == (CpuReadPorts { up: None, down: None, left: None, right: None }),
    {
        CpuReadPorts { up: None, down: None, left: None, right: None }
    }

    fn get_port(&self, p: Port) -> (r: Option<CpuWritePortsReader>)
        ensures
            r == self.at(p),
    {
        match p {
            Port::Up => self.up,
            Port::Down => self.down,
            Port::Left => self.left,
            Port::Right => self.right,
            _ => None,
        }
    }

    fn read_from(&self, fabric: &mut Vec<CpuWritePorts>, d: Port) -> (r: Option<i32>)
        requires
            self.wired(old(fabric)@.len()),
        ensures
            (r, fabric_view(final(fabric)@)) == self.take(fabric_view(old(fabric)@), d),
            final(fabric)@.len() == old(fabric)@.len(),
    {
        match self.get_port(d) {
            Some(reader) => reader.read(fabric),
            None => None,
        }
    }

    fn read_port(&self, fabric: &mut Vec<CpuWritePorts>, port: Port, last: &mut Port) -> (r: Option<i32>)
        requires
            self.wired(old(fabric)@.len()),
        ensures
            (r, fabric_view(final(fabric)@), *final(last)) == self.read_spec(
                fabric_view(old(fabric)@),
                port,
                *old(last),
            ),
            final(fabric)@.len() == old(fabric)@.len(),
    {
        match port {
            Port::Any => {
                let a = self.read_from(fabric, Port::Up);
                if a.is_some() {
                    *last = Port::Up;
                    return a;
                }
                let b = self.read_from(fabric, Port::Down);
                if b.is_some() {
                    *last = Port::Down;
                    return b;
                }
                let c = self.read_from(fabric, Port::Left);
                if c.is_some() {
                    *last = Port::Left;
                    return c;
                }
                let d = self.read_from(fabric, Port::Right);
                if d.is_some() {
                    *last = Port::Right;
                }
                d
            },
            Port::Last => self.read_from(fabric, *last),
            _ => self.read_from(fabric, port),
        }
    }
}

/// The value of an operand read by a node with accumulator `acc` and last
/// direction `last`, the fabric after the read, and the new last direction.
pub open spec fn operand_value(
    ins: CpuReadPorts,
    acc: i32,
    last: Port,
    f: Seq<PortsView>,
    op: Operand,
) -> (Option<i32>, Seq<PortsView>, Port) {
    match op {
        Operand::Lit(i) => (Some(i), f, last),
        Operand::ACC => (Some(acc), f, last),
        Operand::Port(p) => ins.read_spec(f, p, last),
    }
}

/// A node as a mathematical value.
pub struct CpuView {
    pub acc: i32,
    pub bak: i32,
    pub pc: int,
    pub pending: Option<(Port, i32)>,
    pub mode: ExecState,
    pub last: Port,
    pub exe: ExeView,
    pub outports: usize,
    pub inports: CpuReadPorts,
}

impl CpuView {
    pub open spec fn len(self) -> int {
        self.exe.insns.len() as int
    }

    /// The program is well formed, `last` is a physical direction and `pc`
    /// indexes the program (or is 0 when the program is empty).
    pub open spec fn wf(self) -> bool {
        &&& self.exe.wf()
        &&& self.last.is_cardinal()
        &&& if self.len() > 0 {
            0 <= self.pc < self.len()
        } else {
            self.pc == 0 && self.mode == ExecState::EXEC && self.pending is None
        }
    }

    /// Every port handle of the node points into a fabric of `n` nodes.
    pub open spec fn wired(self, n: nat) -> bool {
        self.outports < n && self.inports.wired(n)
    }

    /// `pc` moved to the next instruction, wrapping after the last.
    pub open spec fn advanced(self) -> CpuView {
        CpuView { pc: (self.pc + 1) % self.len(), ..self }
    }

    /// The value of an operand, the node and fabric after reading it: a port
    /// read that finds nothing puts the node in `READ` mode.
    pub open spec fn operand(self, f: Seq<PortsView>, op: Operand) -> (Option<i32>, CpuView, Seq<PortsView>) {
        let (x, f1, l) = operand_value(self.inports, self.acc, self.last, f, op);
        let mode = match op {
            Operand::Port(p) => if x is Some { ExecState::EXEC } else { ExecState::READ(p) },
            _ => self.mode,
        };
        (x, CpuView { last: l, mode, ..self }, f1)
    }

    /// The first half of a tick: run the instruction at `pc` unless the node
    /// waits for a write to be taken. A write to a port is only recorded as
    /// pending here.
    pub open spec fn after_execute(self, f: Seq<PortsView>) -> (CpuView, Seq<PortsView>) {
        if self.len() == 0 || self.mode is WRITE {
            (self, f)
        } else {
            match self.exe.insns[self.pc].0 {
                InsnView::Nop => (self.advanced(), f),
                InsnView::Mov(src, dst) => {
                    let (x, v, f1) = self.operand(f, src);
                    match x {
                        None => (v, f1),
                        Some(i) => match dst {
                            Operand::Port(p) => (CpuView { pending: Some((p, i)), ..v }, f1),
                            _ => (CpuView { acc: i, ..v }.advanced(), f1),
                        },
                    }
                },
                InsnView::Swp => (CpuView { acc: self.bak, bak: self.acc, ..self }.advanced(), f),
                InsnView::Sav => (CpuView { bak: self.acc, ..self }.advanced(), f),
                InsnView::Add(o) => {
                    let (x, v, f1) = self.operand(f, o);
                    match x {
                        None => (v, f1),
                        Some(i) => (CpuView { acc: v.acc.wrapping_add(i), ..v }.advanced(), f1),
                    }
                },
                InsnView::Sub(o) => {
                    let (x, v, f1) = self.operand(f, o);
                    match x {
                        None => (v, f1),
                        Some(i) => (CpuView { acc: v.acc.wrapping_sub(i), ..v }.advanced(), f1),
                    }
                },
                InsnView::Neg => (CpuView { acc: 0i32.wrapping_sub(self.acc), ..self }.advanced(), f),
                InsnView::J(c, name) => if c.holds(self.acc) {
                    match find_label(self.exe.labels, name) {
                        Some(b) => (CpuView { pc: b as int, ..self }, f),
                        None => (self, f),
                    }
                } else {
                    (self.advanced(), f)
                },
                InsnView::Jro(o) => {
                    let (x, v, f1) = self.operand(f, o);
                    match x {
                        None => (v, f1),
                        Some(i) => (CpuView { pc: (v.pc + i) % self.len(), ..v }, f1),
                    }
                },
            }
        }
    }

    /// The second half of a tick: a pending write goes into the node's slots
    /// and the node waits in `WRITE` mode; a node waiting in `WRITE` mode
    /// whose slots have been emptied goes on with the next instruction.
    pub open spec fn after_commit(self, f: Seq<PortsView>) -> (CpuView, Seq<PortsView>) {
        match self.pending {
            Some((p, val)) => {
                let d = if p is Last { self.last } else { p };
                (
                    CpuView { pending: None, mode: ExecState::WRITE(p), ..self },
                    f.update(self.outports as int, f[self.outports as int].written(d, val)),
                )
            },
            None => match self.mode {
                ExecState::WRITE(p) => if f[self.outports as int].finished() {
                    (
                        CpuView {
                            mode: ExecState::EXEC,
                            last: if p is Any { f[self.outports as int].last } else { self.last },
                            ..self
                        }.advanced(),
                        f,
                    )
                } else {
                    (self, f)
                },
                _ => (self, f),
            },
        }
    }
}

struct CpuPorts {
    outports: usize,
    inports: CpuReadPorts,
    last: Port,
}

impl CpuPorts {
    /// Reads from a neighbour, keeping the node's last direction.
    fn read_port(&mut self, fabric: &mut Vec<CpuWritePorts>, port: Port) -> (r: Option<i32>)
        requires
            old(self).inports.wired(old(fabric)@.len()),
        ensures
            (r, fabric_view(final(fabric)@), final(self).last) == old(self).inports.read_spec(
                fabric_view(old(fabric)@),
                port,
                old(self).last,
            ),
            final(self).inports == old(self).inports,
            final(self).outports == old(self).outports,
            final(fabric)@.len() == old(fabric)@.len(),
    {
        self.inports.read_port(fabric, port, &mut self.last)
    }

    /// Writes into the node's own slots, `LAST` standing for the node's
    /// last direction.
    fn write_port(&self, fabric: &mut Vec<CpuWritePorts>, port: Port, val: i32)
        requires
            self.outports < old(fabric)@.len(),
            fabric_view(old(fabric)@)[self.outports as int].finished(),
        ensures
            fabric_view(final(fabric)@) == fabric_view(old(fabric)@).update(
                self.outports as int,
                fabric_view(old(fabric)@)[self.outports as int].written(
                    if port is Last { self.last } else { port },
                    val,
                ),
            ),
            final(fabric)@.len() == old(fabric)@.len(),
    {
        let d = if let Port::Last = port {
            self.last
        } else {
            port
        };
        let mut out = fabric[self.outports];
        out.write_port(d, val);
        fabric.set(self.outports, out);
        assert(fabric_view(fabric@) =~= fabric_view(old(fabric)@).update(self.outports as int, out@));
    }

    /// True when the node's slots are empty; after an `ANY` write, the node
    /// then takes over the direction its value left by.
    fn write_finished(&mut self, fabric: &Vec<CpuWritePorts>, port: Port) -> (r: bool)
        requires
            old(self).outports < fabric@.len(),
        ensures
            r == fabric_view(fabric@)[old(self).outports as int].finished(),
            final(self).last == (if r && port is Any {
                fabric_view(fabric@)[old(self).outports as int].last
            } else {
                old(self).last
            }),
            old(self).last.is_cardinal() ==> final(self).last.is_cardinal(),
            final(self).outports == old(self).outports,
            final(self).inports == old(self).inports,
    {
        let finished = fabric[self.outports].write_finished();
        if finished && port == Port::Any {
            self.last = fabric[self.outports].get_last();
        }
        finished
    }
}

/// One node: its program, its registers and the handles of its ports.
pub struct Cpu {
    state: CpuState,
    ports: CpuPorts,
    executable: Executable,
}

impl View for Cpu {
    type V = CpuView;

    closed spec fn view(&self) -> CpuView {
        CpuView {
            acc: self.state.acc,
            bak: self.state.bak,
            pc: self.state.pc as int,
            pending: self.state.pending_write,
            mode: self.state.exec_state,
            last: self.ports.last,
            exe: self.executable@,
            outports: self.ports.outports,
            inports: self.ports.inports,
        }
    }
}

/// Reads an operand; a port read sets the mode to `READ` when it finds
/// nothing and to `EXEC` when it finds a value.
fn get_operand(
    state: &mut CpuState,
    ports: &mut CpuPorts,
    fabric: &mut Vec<CpuWritePorts>,
    op: &Operand,
) -> (r: Option<i32>)
    requires
        old(ports).inports.wired(old(fabric)@.len()),
    ensures
        (r, fabric_view(final(fabric)@), final(ports).last) == operand_value(
            old(ports).inports,
            old(state).acc,
            old(ports).last,
            fabric_view(old(fabric)@),
            *op,
        ),
        final(state).exec_state == match *op {
            Operand::Port(p) => if r is Some { ExecState::EXEC } else { ExecState::READ(p) },
            _ => old(state).exec_state,
        },
        final(state).acc == old(state).acc,
        final(state).bak == old(state).bak,
        final(state).pc == old(state).pc,
        final(state).pending_write == old(state).pending_write,
        final(ports).inports == old(ports).inports,
        final(ports).outports == old(ports).outports,
        final(fabric)@.len() == old(fabric)@.len(),
{
    match op {
        Operand::Lit(i) => Some(*i),
        Operand::ACC => Some(state.acc),
        Operand::Port(p) => {
            let val = ports.read_port(fabric, *p);
            if val.is_none() {
                state.exec_state = ExecState::READ(*p);
            } else {
                state.exec_state = ExecState::EXEC;
            }
            val
        },
    }
}

/// `(pc + off) mod len`, the target of a relative jump.
fn offset_pc(pc: usize, off: i32, len: usize) -> (r: usize)
    requires
        pc < len <= u32::MAX,
    ensures
        r as int == (pc + off) % (len as int),
{
    let m = len as u64;
    let p = pc as u64;
    if off >= 0 {
        let r = (p + off as u64) % m;
        r as usize
    } else {
        let back = ((0i64 - off as i64) as u64) % m;
        let r = (p + m - back) % m;
        proof {
            let b = (0 - off) as int;
            let mi = m as int;
            vstd::arithmetic::div_mod::lemma_fundamental_div_mod(b, mi);
            assert(b == mi * (b / mi) + back);
            let q = b / mi;
            assert(p + mi - back == (pc + off) + mi * (q + 1)) by (nonlinear_arith)
                requires
                    b == mi * q + back,
                    b == -off,
                    p == pc,
            ;
            vstd::arithmetic::div_mod::lemma_mod_multiples_vanish(q + 1, pc + off, mi);
        }
        r as usize
    }
}

impl Cpu {
    /// A node at the start of its program: registers 0, mode `EXEC`, `last`
    /// `UP`. It writes into the slots at index `write_ports` of the fabric and
    /// reads through `read_ports`.
    pub fn new(executable: Executable, write_ports: usize, read_ports: CpuReadPorts) -> (r: Cpu)
        ensures
            r@ == (CpuView {
                acc: 0,
                bak: 0,
                pc: 0,
                pending: None,
                mode: ExecState::EXEC,
                last: Port::Up,
                exe: executable@,
                outports: write_ports,
                inports: read_ports,
            }),
            r@.wf(),
    {
        let _ = executable.len();
        Cpu {
            state: CpuState { acc: 0, bak: 0, pc: 0, pending_write: None, exec_state: ExecState::EXEC },
            ports: CpuPorts { outports: write_ports, inports: read_ports, last: Port::Up },
            executable,
        }
    }

    /// True when every port handle of the node points into a fabric of `n`
    /// nodes.
    pub fn wired(&self, n: usize) -> (r: bool)
        ensures
            r == self@.wired(n as nat),
    {
        let i = &self.ports.inports;
        self.ports.outports < n && check_handle(i.up, n) && check_handle(i.down, n)
            && check_handle(i.left, n) && check_handle(i.right, n)
    }

    /// Runs the first half of a tick: the instruction at `pc`, unless the
    /// node waits for a write to be taken. Returns false only for an empty
    /// program, which does nothing.
    pub fn execute(&mut self, fabric: &mut Vec<CpuWritePorts>) -> (r: bool)
        requires
            old(self)@.wf(),
            old(self)@.wired(old(fabric)@.len()),
            old(self)@.pending is None,
        ensures
            r == (old(self)@.len() > 0),
            (final(self)@, fabric_view(final(fabric)@)) == old(self)@.after_execute(fabric_view(old(fabric)@)),
            final(self)@.wf(),
            final(self)@.wired(final(fabric)@.len()),
            final(fabric)@.len() == old(fabric)@.len(),
            forall|k: int|
                0 <= k < old(fabric)@.len() && (#[trigger] fabric_view(old(fabric)@)[k]).finished()
                    ==> fabric_view(final(fabric)@)[k].finished(),
    {
        proof {
            lemma_execute_keeps_empty(old(self)@, fabric_view(old(fabric)@));
        }
        let len = self.executable.len();
        if len == 0 {
            return false;
        }
        if let ExecState::WRITE(_) = self.state.exec_state {
            return true;
        }
        let pc = self.state.pc;
        let advance_pc = match self.executable.insn_at(pc) {
            Instruction::NOP => true,
            Instruction::MOV { src, dst } => match get_operand(&mut self.state, &mut self.ports, fabric, src) {
                Some(i) => match dst {
                    Operand::Port(p) => {
                        self.state.pending_write = Some((*p, i));
                        false
                    },
                    _ => {
                        self.state.acc = i;
                        true
                    },
                },
                None => false,
            },
            Instruction::SWP => {
                let tmp = self.state.acc;
                self.state.acc = self.state.bak;
                self.state.bak = tmp;
                true
            },
            Instruction::SAV => {
                self.state.bak = self.state.acc;
                true
            },
            Instruction::ADD { addend } => match get_operand(&mut self.state, &mut self.ports, fabric, addend) {
                Some(i) => {
                    self.state.acc = self.state.acc.wrapping_add(i);
                    true
                },
                None => false,
            },
            Instruction::SUB { subtrahend } => match get_operand(
                &mut self.state,
                &mut self.ports,
                fabric,
                subtrahend,
            ) {
                Some(i) => {
                    self.state.acc = self.state.acc.wrapping_sub(i);
                    true
                },
                None => false,
            },
            Instruction::NEG => {
                self.state.acc = 0i32.wrapping_sub(self.state.acc);
                true
            },
            Instruction::J { cond, dst } => {
                if cond.test(self.state.acc) {
                    if let Some(b) = self.executable.label_line(dst) {
                        self.state.pc = b as usize;
                    }
                    false
                } else {
                    true
                }
            },
            Instruction::JRO { dst } => match get_operand(&mut self.state, &mut self.ports, fabric, dst) {
                Some(i) => {
                    self.state.pc = offset_pc(pc, i, len);
                    false
                },
                None => false,
            },
        };
        self.update_pc(advance_pc);
        true
    }

    /// Runs the second half of a tick: a pending write goes into the node's
    /// slots; a node waiting for its write to be taken goes on once its
    /// slots are empty.
    pub fn write_cycle(&mut self, fabric: &mut Vec<CpuWritePorts>)
        requires
            old(self)@.wf(),
            old(self)@.wired(old(fabric)@.len()),
            old(self)@.pending is Some ==> fabric_view(old(fabric)@)[old(self)@.outports as int].finished(),
        ensures
            (final(self)@, fabric_view(final(fabric)@)) == old(self)@.after_commit(fabric_view(old(fabric)@)),
            final(self)@.wf(),
            final(self)@.wired(final(fabric)@.len()),
            final(self)@.pending is None,
            final(fabric)@.len() == old(fabric)@.len(),
    {
        if let Some((port, val)) = self.state.pending_write {
            self.state.pending_write = None;
            self.ports.write_port(fabric, port, val);
            self.state.exec_state = ExecState::WRITE(port);
        } else if let ExecState::WRITE(port) = self.state.exec_state {
            if self.ports.write_finished(fabric, port) {
                self.state.exec_state = ExecState::EXEC;
                self.update_pc(true);
            }
        }
    }

    fn update_pc(&mut self, advance: bool)
        requires
            old(self)@.wf(),
            old(self)@.len() > 0,
        ensures
            final(self)@ == (if advance { old(self)@.advanced() } else { old(self)@ }),
    {
        let len = self.executable.len();
        if advance {
            proof {
                let next = (self.state.pc + 1) as nat;
                if next < len {
                    vstd::arithmetic::div_mod::lemma_small_mod(next, len as nat);
                } else {
                    vstd::arithmetic::div_mod::lemma_mod_self_0(len as int);
                }
            }
            self.state.pc = if self.state.pc + 1 < len {
                self.state.pc + 1
            } else {
                0
            };
        }
    }

    fn pc(&self) -> (r: usize)
        ensures
            r == self@.pc,
    {
        self.state.pc
    }

    /// The mode of the node.
    pub fn exec_state(&self) -> (r: ExecState)
        ensures
            r == self@.mode,
    {
        self.state.exec_state
    }

    /// The registers of the node.
    pub fn state(&self) -> (r: &CpuState)
        ensures
            r.acc == self@.acc,
            r.bak == self@.bak,
            r.pc == self@.pc,
            r.pending_write == self@.pending,
            r.exec_state == self@.mode,
    {
        &self.state
    }

    /// The direction of the last successful `ANY` read or write.
    pub fn last(&self) -> (r: Port)
        ensures
            r == self@.last,
    {
        self.ports.last
    }

    /// The source line of the instruction at `pc`, or 0 for an empty
    /// program.
    pub fn current_line(&self) -> (r: u32)
        requires
            self@.wf(),
        ensures
            self@.len() > 0 ==> r == self@.exe.insns[self@.pc].1,
            self@.len() == 0 ==> r == 0,
    {
        if self.executable.len() == 0 {
            0
        } else {
            self.executable.srcline_at(self.pc())
        }
    }
}

/// After an advance or a relative jump by any offset, `pc` indexes the
/// program.
pub proof fn lemma_pc_wraps(v: CpuView, off: int)
    requires
        v.wf(),
        v.len() > 0,
    ensures
        0 <= v.advanced().pc < v.len(),
        0 <= (v.pc + off) % v.len() < v.len(),
{
    vstd::arithmetic::div_mod::lemma_mod_pos_bound(v.pc + 1, v.len());
    vstd::arithmetic::div_mod::lemma_mod_bound(v.pc + off, v.len());
}

proof fn lemma_execute_wf(v: CpuView, f: Seq<PortsView>)
    requires
        v.wf(),
    ensures
        v.after_execute(f).0.wf(),
        v.after_execute(f).0.exe == v.exe,
        v.after_execute(f).0.outports == v.outports,
        v.after_execute(f).0.inports == v.inports,
{
    if v.len() > 0 {
        lemma_pc_wraps(v, 0);
        let pc = v.pc;
        assert(jump_ok(v.exe.labels, v.exe.insns.len(), v.exe.insns[pc].0));
        match v.exe.insns[pc].0 {
            InsnView::Jro(o) => {
                let (x, w, f1) = v.operand(f, o);
                if let Some(i) = x {
                    lemma_pc_wraps(v, i as int);
                }
            },
            _ => {},
        }
    }
}

proof fn lemma_commit_wf(v: CpuView, f: Seq<PortsView>)
    requires
        v.wf(),
        v.pending is None && v.mode is WRITE ==> f[v.outports as int].wf(),
    ensures
        v.after_commit(f).0.wf(),
        v.after_commit(f).0.pending is None,
        v.after_commit(f).0.exe == v.exe,
{
    if v.len() > 0 {
        lemma_pc_wraps(v, 0);
    }
}

/// A read never fills a slot: every slot that was empty stays as it was.
proof fn lemma_read_keeps_empty(ins: CpuReadPorts, f: Seq<PortsView>, p: Port, last: Port)
    requires
        ins.wired(f.len()),
    ensures
        ins.read_spec(f, p, last).1.len() == f.len(),
        forall|k: int| 0 <= k < f.len() && (#[trigger] f[k]).finished() ==> ins.read_spec(f, p, last).1[k] == f[k],
{
    assert forall|g: Seq<PortsView>, d: Port| g.len() == f.len() implies (#[trigger] ins.take(g, d)).1.len() == g.len()
        && forall|k: int| 0 <= k < g.len() && (#[trigger] g[k]).finished() ==> ins.take(g, d).1[k] == g[k] by {
        match d {
            Port::Up | Port::Down | Port::Left | Port::Right => {},
            _ => {},
        }
    }
}

/// `execute` never fills a slot: every slot of the fabric that was empty
/// before is empty after, and the fabric keeps its size.
pub proof fn lemma_execute_keeps_empty(v: CpuView, f: Seq<PortsView>)
    requires
        v.wired(f.len()),
    ensures
        v.after_execute(f).1.len() == f.len(),
        forall|k: int| 0 <= k < f.len() && (#[trigger] f[k]).finished() ==> v.after_execute(f).1[k].finished(),
{
    lemma_read_keeps_empty(v.inports, f, Port::Up, v.last);
    if v.len() > 0 && !(v.mode is WRITE) {
        match v.exe.insns[v.pc].0 {
            InsnView::Mov(o, _) => lemma_read_keeps_empty(v.inports, f, o->Port_0, v.last),
            InsnView::Add(o) => lemma_read_keeps_empty(v.inports, f, o->Port_0, v.last),
            InsnView::Sub(o) => lemma_read_keeps_empty(v.inports, f, o->Port_0, v.last),
            InsnView::Jro(o) => lemma_read_keeps_empty(v.inports, f, o->Port_0, v.last),
            _ => {},
        }
    }
}

/// A tick, `execute` then `write_cycle`, on a program with at least one
/// instruction, from a state a node reaches on its own (its slots are empty
/// unless it waits in `WRITE` mode): the commit finds its slots empty when a
/// write is pending, so the tick completes; afterwards `pc` indexes the
/// program, the node is well formed, no write is pending, and the node's
/// slots are again empty unless it waits in `WRITE` mode.
pub proof fn lemma_tick_keeps_pc(v: CpuView, f: Seq<PortsView>)
    requires
        v.wf(),
        v.len() >= 1,
        v.pending is None,
        v.wired(f.len()),
        f[v.outports as int].wf(),
        !(v.mode is WRITE) ==> f[v.outports as int].finished(),
    ensures
        ({
            let (a, g) = v.after_execute(f);
            let (b, h) = a.after_commit(g);
            &&& a.pending is Some ==> g[v.outports as int].finished()
            &&& 0 <= b.pc < v.len()
            &&& b.wf()
            &&& b.pending is None
            &&& !(b.mode is WRITE) ==> h[v.outports as int].finished()
        }),
{
    lemma_execute_wf(v, f);
    lemma_execute_keeps_empty(v, f);
    let (a, g) = v.after_execute(f);
    if v.mode is WRITE {
        assert(g == f);
    }
    lemma_commit_wf(a, g);
}

/// No instruction of the program names a port.
pub open spec fn port_free(e: ExeView) -> bool {
    forall|k: int| 0 <= k < e.insns.len() ==> !(#[trigger] e.insns[k]).0.uses_port()
}

/// A program that names no port never waits and never touches the ports:
/// each tick depends on the node alone, leaves it running, and its commit
/// does nothing.
pub proof fn lemma_port_free_tick(v: CpuView, f1: Seq<PortsView>, f2: Seq<PortsView>)
    requires
        v.wf(),
        port_free(v.exe),
        v.mode == ExecState::EXEC,
        v.pending is None,
    ensures
        v.after_execute(f1).0 == v.after_execute(f2).0,
        v.after_execute(f1).1 == f1,
        v.after_execute(f1).0.mode == ExecState::EXEC,
        v.after_execute(f1).0.pending is None,
        v.after_execute(f1).0.after_commit(f1) == (v.after_execute(f1).0, f1),
{
    if v.len() > 0 {
        let pc = v.pc;
        assert(!v.exe.insns[pc].0.uses_port());
        assert(v.exe.insns[pc].0.well_formed());
    }
}

} // verus!
