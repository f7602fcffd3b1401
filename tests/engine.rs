use tis_100::cpu::{Cpu, CpuReadPorts, ExecState};
use tis_100::instruction::Port;
use tis_100::parse::parse;
use tis_100::port::{CpuWritePorts, CpuWritePortsReader, CpuWritePortsReaders};

fn node(program: &str) -> (Cpu, Vec<CpuWritePorts>) {
    let e = parse(program).unwrap();
    (Cpu::new(e, 0, CpuReadPorts::unconnected()), vec![CpuWritePorts::new()])
}

fn step(cpu: &mut Cpu, fabric: &mut Vec<CpuWritePorts>) {
    assert!(cpu.execute(fabric));
    cpu.write_cycle(fabric);
}

#[test]
fn pc_wraps_over_full_ticks() {
    let (mut cpu, mut fabric) = node("TOP: NOP\nNOP");
    assert_eq!(cpu.current_line(), 0);
    step(&mut cpu, &mut fabric);
    assert_eq!(cpu.current_line(), 1);
    step(&mut cpu, &mut fabric);
    assert_eq!(cpu.current_line(), 0);
    step(&mut cpu, &mut fabric);
    assert_eq!(cpu.current_line(), 1);
    assert_eq!(cpu.state().acc, 0);
}

#[test]
fn empty_program_does_nothing() {
    let (mut cpu, mut fabric) = node("\n\n");
    assert!(!cpu.execute(&mut fabric));
    cpu.write_cycle(&mut fabric);
    assert_eq!(cpu.current_line(), 0);
    assert_eq!(cpu.exec_state(), ExecState::EXEC);
}

#[test]
fn swap_save_negate() {
    let (mut cpu, mut fabric) = node("MOV 7 ACC\nSAV\nNEG\nSWP\nSUB -1");
    for _ in 0..5 {
        step(&mut cpu, &mut fabric);
    }
    assert_eq!(cpu.state().acc, 8);
    assert_eq!(cpu.state().bak, -7);
}

#[test]
fn arithmetic_wraps() {
    let (mut cpu, mut fabric) = node("MOV 2147483647 ACC\nADD 1\nNEG\nSUB 1");
    step(&mut cpu, &mut fabric);
    step(&mut cpu, &mut fabric);
    assert_eq!(cpu.state().acc, i32::MIN);
    step(&mut cpu, &mut fabric);
    assert_eq!(cpu.state().acc, i32::MIN);
    step(&mut cpu, &mut fabric);
    assert_eq!(cpu.state().acc, i32::MAX);
}

#[test]
fn conditional_jumps() {
    let (mut cpu, mut fabric) = node("JEZ Z\nNOP\nZ: JNZ Z\nADD 1\nJGZ G\nNOP\nG: SUB 5\nJLZ G");
    step(&mut cpu, &mut fabric);
    assert_eq!(cpu.current_line(), 2);
    step(&mut cpu, &mut fabric);
    assert_eq!(cpu.current_line(), 3);
    step(&mut cpu, &mut fabric);
    step(&mut cpu, &mut fabric);
    assert_eq!(cpu.current_line(), 6);
    step(&mut cpu, &mut fabric);
    assert_eq!(cpu.state().acc, -4);
    step(&mut cpu, &mut fabric);
    assert_eq!(cpu.current_line(), 6);
}

#[test]
fn relative_jumps_wrap() {
    let (mut cpu, mut fabric) = node("JRO -1\nNOP\nJRO 5\nJRO 0");
    step(&mut cpu, &mut fabric);
    assert_eq!(cpu.current_line(), 3);
    step(&mut cpu, &mut fabric);
    assert_eq!(cpu.current_line(), 3);

    let (mut cpu, mut fabric) = node("NOP\nNOP\nJRO 5");
    step(&mut cpu, &mut fabric);
    step(&mut cpu, &mut fabric);
    step(&mut cpu, &mut fabric);
    assert_eq!(cpu.current_line(), 1);

    let (mut cpu, mut fabric) = node("JRO -2147483648\nNOP\nNOP");
    step(&mut cpu, &mut fabric);
    // -2147483648 = -715827883 * 3 + 1
    assert_eq!(cpu.current_line(), 1);
}

#[test]
fn port_free_program_ignores_fabric() {
    let program = "MOV 3 ACC\nL: SUB 1\nSAV\nJGZ L\nJRO -4";
    let e1 = parse(program).unwrap();
    let e2 = parse(program).unwrap();
    let mut quiet = vec![CpuWritePorts::new(), CpuWritePorts::new()];
    let mut busy = vec![CpuWritePorts::new(), CpuWritePorts::new()];
    busy[1].write_port(Port::Any, 99);
    let readers = CpuWritePortsReaders::new(1);
    let wired = CpuReadPorts { up: Some(readers.up), down: Some(readers.down), left: None, right: None };
    let mut a = Cpu::new(e1, 0, wired);
    let mut b = Cpu::new(e2, 0, wired);
    for _ in 0..40 {
        step(&mut a, &mut quiet);
        step(&mut b, &mut busy);
        assert_eq!(a.exec_state(), ExecState::EXEC);
        assert_eq!(b.exec_state(), ExecState::EXEC);
        assert_eq!(a.state().acc, b.state().acc);
        assert_eq!(a.state().bak, b.state().bak);
        assert_eq!(a.current_line(), b.current_line());
    }
    assert_eq!(busy[1].slot(Port::Up), Some(99));
    assert!(quiet[0].write_finished());
}

#[test]
fn neighbours_see_every_value_once_in_order() {
    // Node 0 writes 1, 2, 3, ... DOWN; node 1 reads them from UP and adds them.
    let producer = parse("ADD 1\nMOV ACC DOWN").unwrap();
    let consumer = parse("MOV UP ACC\nSAV\nADD 0").unwrap();
    let mut fabric = vec![CpuWritePorts::new(), CpuWritePorts::new()];
    let mut a = Cpu::new(producer, 0, CpuReadPorts::unconnected());
    let from_a = CpuWritePortsReader::new(0, Port::Down);
    let mut b = Cpu::new(consumer, 1, CpuReadPorts { up: Some(from_a), down: None, left: None, right: None });
    let mut seen = Vec::new();
    for _ in 0..60 {
        a.execute(&mut fabric);
        b.execute(&mut fabric);
        a.write_cycle(&mut fabric);
        b.write_cycle(&mut fabric);
        if b.current_line() == 1 && seen.last() != Some(&b.state().acc) {
            seen.push(b.state().acc);
        }
    }
    let expected: Vec<i32> = (1..=seen.len() as i32).collect();
    assert!(seen.len() >= 5);
    assert_eq!(seen, expected);
}

#[test]
fn any_read_probes_in_order_and_sets_last() {
    let e = parse("MOV ANY ACC\nMOV LAST ACC\nMOV 5 LAST").unwrap();
    let mut fabric = vec![CpuWritePorts::new(), CpuWritePorts::new()];
    let r = CpuWritePortsReaders::new(1);
    let ports = CpuReadPorts { up: Some(r.up), down: Some(r.down), left: Some(r.left), right: Some(r.right) };
    let mut cpu = Cpu::new(e, 0, ports);
    assert_eq!(cpu.last(), Port::Up);
    fabric[1].write_port(Port::Left, 4);
    step(&mut cpu, &mut fabric);
    assert_eq!(cpu.state().acc, 4);
    assert_eq!(cpu.last(), Port::Left);
    step(&mut cpu, &mut fabric);
    assert_eq!(cpu.exec_state(), ExecState::READ(Port::Last));
    fabric[1].write_port(Port::Left, 6);
    step(&mut cpu, &mut fabric);
    assert_eq!(cpu.state().acc, 6);
    step(&mut cpu, &mut fabric);
    assert_eq!(fabric[0].slot(Port::Left), Some(5));
    assert_eq!(fabric[0].slot(Port::Up), None);
}

#[test]
fn wiring_is_checked() {
    let e = parse("NOP").unwrap();
    let far = CpuWritePortsReader::new(3, Port::Down);
    let cpu = Cpu::new(e, 0, CpuReadPorts { up: Some(far), down: None, left: None, right: None });
    assert!(cpu.wired(4));
    assert!(!cpu.wired(3));
}

#[test]
fn write_port_any_and_last() {
    let mut p = CpuWritePorts::new();
    assert!(p.write_finished());
    p.write_port(Port::Any, 3);
    assert!(!p.write_finished());
    assert_eq!(p.slot(Port::Right), Some(3));
    assert_eq!(p.read(Port::Right), Some(3));
    assert!(p.write_finished());
    assert_eq!(p.get_last(), Port::Right);
    p.write_port(Port::Last, 8);
    assert_eq!(p.slot(Port::Right), Some(8));
    assert_eq!(p.slot(Port::Up), None);
    assert_eq!(p.read(Port::Up), None);
    assert_eq!(p.get_last(), Port::Right);
}

#[test]
fn exec_state_default_is_exec() {
    assert_eq!(ExecState::default(), ExecState::EXEC);
}
