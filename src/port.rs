use vstd::prelude::*;
use crate::instruction::Port;

verus! {

/// The four outgoing slots of a node, and the direction from which a
/// neighbour last took a value.
pub struct PortsView {
    pub up: Option<i32>,
    pub down: Option<i32>,
    pub left: Option<i32>,
    pub right: Option<i32>,
    pub last: Port,
}

impl PortsView {
    /// The slot facing direction `p`.
    pub open spec fn slot(self, p: Port) -> Option<i32> {
        match p {
            Port::Up => self.up,
            Port::Down => self.down,
            Port::Left => self.left,
            Port::Right => self.right,
            _ => None,
        }
    }

    /// No value waits in any slot.
    pub open spec fn finished(self) -> bool {
        &&& self.up is None
        &&& self.down is None
        &&& self.left is None
        &&& self.right is None
    }

    /// At most one slot is full, unless one `ANY` write fills all four with
    /// the same value; `last` is a physical direction.
    pub open spec fn wf(self) -> bool {
        &&& self.last.is_cardinal()
        &&& {
            ||| self.finished()
            ||| (self.up is Some && self.down is None && self.left is None && self.right is None)
            ||| (self.up is None && self.down is Some && self.left is None && self.right is None)
            ||| (self.up is None && self.down is None && self.left is Some && self.right is None)
            ||| (self.up is None && self.down is None && self.left is None && self.right is Some)
            ||| (self.up is Some && self.up == self.down && self.up == self.left && self.up
                == self.right)
        }
    }

    /// The slots after a producer writes `v` towards `p`: all four for
    /// `ANY`, the last consumer's direction for `LAST`.
    pub open spec fn written(self, p: Port, v: i32) -> PortsView {
        let d = if p is Last { self.last } else { p };
        match d {
            Port::Up => PortsView { up: Some(v), ..self },
            Port::Down => PortsView { down: Some(v), ..self },
            Port::Left => PortsView { left: Some(v), ..self },
            Port::Right => PortsView { right: Some(v), ..self },
            _ => PortsView { up: Some(v), down: Some(v), left: Some(v), right: Some(v), ..self },
        }
    }

    /// What a consumer facing slot `p` gets, and the slots after: a full
    /// slot is taken, which empties all four and records `p` as `last`.
    pub open spec fn taken(self, p: Port) -> (Option<i32>, PortsView) {
        match self.slot(p) {
            Some(v) => (
                Some(v),
                PortsView { up: None, down: None, left: None, right: None, last: p },
            ),
            None => (None, self),
        }
    }
}

/// The outgoing slots of one node. The node writes into them; each
/// neighbour takes values out of the slot that faces it.
#[derive(Clone, Copy, Debug)]
pub struct CpuWritePorts {
    up: Option<i32>,
    down: Option<i32>,
    left: Option<i32>,
    right: Option<i32>,
    last: Port,
}

impl View for CpuWritePorts {
    type V = PortsView;

    closed spec fn view(&self) -> PortsView {
        PortsView { up: self.up, down: self.down, left: self.left, right: self.right, last: self.last }
    }
}

impl CpuWritePorts {
    #[verifier::type_invariant]
    spec fn inv(&self) -> bool {
        self@.wf()
    }

    /// Empty slots; `last` starts as `UP`.
    pub fn new() -> (r: CpuWritePorts)
        ensures
            r@ == (PortsView { up: None, down: None, left: None, right: None, last: Port::Up }),
            r@.wf(),
    {
        CpuWritePorts { up: None, down: None, left: None, right: None, last: Port::Up }
    }

    /// The value waiting in the slot facing `p`, left in place. Every
    /// `CpuWritePorts` meets the invariant of the slots.
    pub fn slot(&self, p: Port) -> (r: Option<i32>)
        ensures
            r == self@.slot(p),
            self@.wf(),
    {
        proof {
            use_type_invariant(self);
        }
        match p {
            Port::Up => self.up,
            Port::Down => self.down,
            Port::Left => self.left,
            Port::Right => self.right,
            _ => None,
        }
    }

    fn set_all(&mut self, val: Option<i32>)
        ensures
            final(self)@ == (PortsView { up: val, down: val, left: val, right: val, ..old(self)@ }),
    {
        proof {
            use_type_invariant(&*self);
        }
        *self = CpuWritePorts { up: val, down: val, left: val, right: val, last: self.last };
    }

    /// Takes the value waiting in the slot facing `port`, if any. Taking one
    /// empties all four slots, which ends an `ANY` write as well, and records
    /// `port` as the last direction.
    pub fn read(&mut self, port: Port) -> (r: Option<i32>)
        requires
            port.is_cardinal(),
        ensures
            (r, final(self)@) == old(self)@.taken(port),
            final(self)@.wf(),
    {
        proof {
            use_type_invariant(&*self);
        }
        let ret = self.slot(port);
        if ret.is_some() {
            *self = CpuWritePorts { up: None, down: None, left: None, right: None, last: port };
        }
        ret
    }

    /// True when no write is waiting to be taken.
    pub fn write_finished(&self) -> (r: bool)
        ensures
            r == self@.finished(),
    {
        self.up.is_none() && self.down.is_none() && self.left.is_none() && self.right.is_none()
    }

    /// The direction from which a value was last taken.
    pub fn get_last(&self) -> (r: Port)
        ensures
            r == self@.last,
            r.is_cardinal(),
    {
        proof {
            use_type_invariant(self);
        }
        self.last
    }

    /// Offers `val` towards `p`: to one neighbour, to all four for `ANY`, or
    /// to the last consumer for `LAST`. Only one write may wait at a time.
    pub fn write_port(&mut self, p: Port, val: i32)
        requires
            old(self)@.finished(),
        ensures
            final(self)@ == old(self)@.written(p, val),
            final(self)@.wf(),
    {
        proof {
            use_type_invariant(&*self);
        }
        let d = if let Port::Last = p {
            self.last
        } else {
            p
        };
        match d {
            Port::Up => self.up = Some(val),
            Port::Down => self.down = Some(val),
            Port::Left => self.left = Some(val),
            Port::Right => self.right = Some(val),
            _ => self.set_all(Some(val)),
        }
    }
}

/// The slots of every node of a grid, each node at its own index.
pub open spec fn fabric_view(f: Seq<CpuWritePorts>) -> Seq<PortsView> {
    f.map_values(|p: CpuWritePorts| p@)
}

/// A neighbour's handle on one slot: the slot facing `active` among the
/// ports of the node at index `ports` of the fabric.
#[derive(Clone, Copy, Debug, PartialEq, Eq, Structural)]
pub struct CpuWritePortsReader {
    pub ports: usize,
    pub active: Port,
}

/// What a read through `r` gets, and the fabric after it.
pub open spec fn take_through(f: Seq<PortsView>, r: CpuWritePortsReader) -> (Option<i32>, Seq<PortsView>) {
    let (v, s) = f[r.ports as int].taken(r.active);
    (v, f.update(r.ports as int, s))
}

impl CpuWritePortsReader {
    /// A handle on the slot facing `port` of the node at index `ports`.
    pub fn new(ports: usize, port: Port) -> (r: CpuWritePortsReader)
        requires
            port.is_cardinal(),
        ensures
            r == (CpuWritePortsReader { ports, active: port }),
    {
        CpuWritePortsReader { ports, active: port }
    }

    /// Takes the value waiting in the slot, if any.
    pub fn read(&self, fabric: &mut Vec<CpuWritePorts>) -> (r: Option<i32>)
        requires
            self.ports < old(fabric)@.len(),
            self.active.is_cardinal(),
        ensures
            (r, fabric_view(final(fabric)@)) == take_through(fabric_view(old(fabric)@), *self),
            final(fabric)@.len() == old(fabric)@.len(),
    {
        let mut p = fabric[self.ports];
        let r = p.read(self.active);
        fabric.set(self.ports, p);
        assert(fabric_view(fabric@) =~= take_through(fabric_view(old(fabric)@), *self).1);
        r
    }
}

/// Handles on the four slots of one node, each named by the slot it reads.
#[derive(Clone, Copy, Debug)]
pub struct CpuWritePortsReaders {
    pub up: CpuWritePortsReader,
    pub down: CpuWritePortsReader,
    pub left: CpuWritePortsReader,
    pub right: CpuWritePortsReader,
}

impl CpuWritePortsReaders {
    /// Handles on the slots of the node at index `ports`.
    pub fn new(ports: usize) -> (r: CpuWritePortsReaders)
        ensures
            r.up == (CpuWritePortsReader { ports, active: Port::Up }),
            r.down == (CpuWritePortsReader { ports, active: Port::Down }),
            r.left == (CpuWritePortsReader { ports, active: Port::Left }),
            r.right == (CpuWritePortsReader { ports, active: Port::Right }),
    {
        CpuWritePortsReaders {
            up: CpuWritePortsReader::new(ports, Port::Up),
            down: CpuWritePortsReader::new(ports, Port::Down),
            left: CpuWritePortsReader::new(ports, Port::Left),
            right: CpuWritePortsReader::new(ports, Port::Right),
        }
    }
}

/// One step on a slot shared by a producer and a consumer.
pub enum SlotEvent {
    /// The producer offers a value; it waits instead while a value is
    /// still waiting.
    Write(i32),
    /// The consumer tries to take a value.
    Take,
}

/// Plays `evs` on the slot facing `p`: the slots after, the values the
/// producer wrote, and the values the consumer took, in order.
pub open spec fn run_slot(s: PortsView, p: Port, evs: Seq<SlotEvent>) -> (PortsView, Seq<i32>, Seq<i32>)
    decreases evs.len(),
{
    if evs.len() == 0 {
        (s, seq![], seq![])
    } else {
        let (t, w, seen) = run_slot(s, p, evs.drop_last());
        match evs.last() {
            SlotEvent::Write(v) => if t.finished() {
                (t.written(p, v), w.push(v), seen)
            } else {
                (t, w, seen)
            },
            SlotEvent::Take => {
                let (x, u) = t.taken(p);
                (
                    u,
                    w,
                    match x {
                        Some(v) => seen.push(v),
                        None => seen,
                    },
                )
            },
        }
    }
}

/// The value still waiting in slot `p`, as a sequence of zero or one.
pub open spec fn waiting(s: PortsView, p: Port) -> Seq<i32> {
    match s.slot(p) {
        Some(v) => seq![v],
        None => seq![],
    }
}

/// A value written to a slot reaches its consumer exactly once and in
/// order: what the consumer took, followed by what still waits, is what
/// the producer wrote.
pub proof fn lemma_slot_delivers_in_order(s: PortsView, p: Port, evs: Seq<SlotEvent>)
    requires
        s.finished(),
        p.is_cardinal(),
    ensures
        run_slot(s, p, evs).1 == run_slot(s, p, evs).2 + waiting(run_slot(s, p, evs).0, p),
        forall|d: Port| d != p ==> (#[trigger] run_slot(s, p, evs).0.slot(d)) is None,
    decreases evs.len(),
{
    if evs.len() > 0 {
        lemma_slot_delivers_in_order(s, p, evs.drop_last());
        let (t, w, seen) = run_slot(s, p, evs.drop_last());
        match evs.last() {
            SlotEvent::Write(v) => {
                if t.finished() {
                    assert(w.push(v) =~= seen + seq![v]);
                }
            },
            SlotEvent::Take => {
                if let Some(v) = t.slot(p) {
                    assert(seen.push(v) + waiting(t.taken(p).1, p) =~= w);
                }
            },
        }
    } else {
        assert(Seq::<i32>::empty() + waiting(s, p) =~= Seq::<i32>::empty());
    }
}

} // verus!
