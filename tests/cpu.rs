use tis_100::cpu::{Cpu, CpuReadPorts, ExecState};
use tis_100::instruction::Port;
use tis_100::parse::parse;
use tis_100::port::{CpuWritePorts, CpuWritePortsReader, CpuWritePortsReaders};

fn lone_cpu(program: &str) -> (Cpu, Vec<CpuWritePorts>) {
    let e = parse(program).unwrap();
    let fabric = vec![CpuWritePorts::new()];
    (Cpu::new(e, 0, CpuReadPorts::unconnected()), fabric)
}

fn tick(cpu: &mut Cpu, fabric: &mut Vec<CpuWritePorts>) {
    cpu.execute(fabric);
    cpu.write_cycle(fabric);
}

#[test]
fn test_cpu_wrapping() {
    let (mut cpu, mut fabric) = lone_cpu("TOP: NOP\nNOP");
    assert_eq!(cpu.current_line(), 0);
    cpu.execute(&mut fabric);
    assert_eq!(cpu.current_line(), 1);
    cpu.execute(&mut fabric);
    assert_eq!(cpu.current_line(), 0);
    cpu.execute(&mut fabric);
    assert_eq!(cpu.current_line(), 1);
    cpu.execute(&mut fabric);
}

#[test]
fn test_mov() {
    let (mut cpu, mut fabric) = lone_cpu("MOV 10 ACC\nNOP");
    assert_eq!(cpu.current_line(), 0);
    assert_eq!(cpu.state().acc, 0);
    cpu.execute(&mut fabric);
    assert_eq!(cpu.current_line(), 1);
    assert_eq!(cpu.state().acc, 10);
}

#[test]
fn test_add_sub() {
    let (mut cpu, mut fabric) = lone_cpu("ADD 10\nADD -20\nSUB 10\nSUB -30");
    assert_eq!(cpu.current_line(), 0);
    assert_eq!(cpu.state().acc, 0);
    cpu.execute(&mut fabric);
    assert_eq!(cpu.current_line(), 1);
    assert_eq!(cpu.state().acc, 10);
    cpu.execute(&mut fabric);
    assert_eq!(cpu.current_line(), 2);
    assert_eq!(cpu.state().acc, -10);
    cpu.execute(&mut fabric);
    assert_eq!(cpu.current_line(), 3);
    assert_eq!(cpu.state().acc, -20);
    cpu.execute(&mut fabric);
    assert_eq!(cpu.current_line(), 0);
    assert_eq!(cpu.state().acc, 10);
}

#[test]
fn test_port_write() {
    let (mut cpu, mut fabric) = lone_cpu("MOV 10 DOWN\nNOP");
    let down = CpuWritePortsReader::new(0, Port::Down);

    // First iteration: the write appears right after the first write_cycle().
    cpu.execute(&mut fabric);
    assert_eq!(down.read(&mut fabric), None);
    cpu.write_cycle(&mut fabric);
    assert_eq!(cpu.current_line(), 0);
    assert_eq!(cpu.exec_state(), ExecState::WRITE(Port::Down));
    assert_eq!(down.read(&mut fabric).unwrap(), 10);
    assert_eq!(cpu.exec_state(), ExecState::WRITE(Port::Down));

    cpu.execute(&mut fabric);
    assert_eq!(cpu.current_line(), 0);
    assert_eq!(cpu.exec_state(), ExecState::WRITE(Port::Down));
    cpu.write_cycle(&mut fabric);
    assert_eq!(cpu.exec_state(), ExecState::EXEC);
    assert_eq!(cpu.current_line(), 1);

    // NOP
    tick(&mut cpu, &mut fabric);
    assert_eq!(cpu.current_line(), 0);

    // Second iteration: the write blocks.
    tick(&mut cpu, &mut fabric);
    assert_eq!(cpu.current_line(), 0);
    assert_eq!(cpu.exec_state(), ExecState::WRITE(Port::Down));
    tick(&mut cpu, &mut fabric);
    assert_eq!(cpu.current_line(), 0);
    assert_eq!(cpu.exec_state(), ExecState::WRITE(Port::Down));
    tick(&mut cpu, &mut fabric);
    assert_eq!(down.read(&mut fabric).unwrap(), 10);
    tick(&mut cpu, &mut fabric);
    assert_eq!(cpu.exec_state(), ExecState::EXEC);
    assert_eq!(cpu.current_line(), 1);
}

fn reader(p: Port) -> CpuWritePortsReader {
    CpuWritePortsReader::new(0, p)
}

/// A write to ANY can be read from any output, but only from one.
#[test]
fn test_write_any_last() {
    let (mut cpu, mut fabric) = lone_cpu("MOV 10 ANY\n
                              MOV 20 ANY\n
                              MOV 30 ANY\n
                              MOV 40 ANY\n
                              MOV 50 LAST");

    tick(&mut cpu, &mut fabric);
    assert_eq!(reader(Port::Up).read(&mut fabric).unwrap(), 10);
    assert_eq!(reader(Port::Up).read(&mut fabric), None);
    assert_eq!(reader(Port::Down).read(&mut fabric), None);
    assert_eq!(reader(Port::Left).read(&mut fabric), None);
    assert_eq!(reader(Port::Right).read(&mut fabric), None);
    tick(&mut cpu, &mut fabric);

    tick(&mut cpu, &mut fabric);
    assert_eq!(reader(Port::Down).read(&mut fabric).unwrap(), 20);
    assert_eq!(reader(Port::Up).read(&mut fabric), None);
    assert_eq!(reader(Port::Down).read(&mut fabric), None);
    assert_eq!(reader(Port::Left).read(&mut fabric), None);
    assert_eq!(reader(Port::Right).read(&mut fabric), None);
    tick(&mut cpu, &mut fabric);

    tick(&mut cpu, &mut fabric);
    assert_eq!(reader(Port::Left).read(&mut fabric).unwrap(), 30);
    assert_eq!(reader(Port::Up).read(&mut fabric), None);
    assert_eq!(reader(Port::Down).read(&mut fabric), None);
    assert_eq!(reader(Port::Left).read(&mut fabric), None);
    assert_eq!(reader(Port::Right).read(&mut fabric), None);
    tick(&mut cpu, &mut fabric);

    tick(&mut cpu, &mut fabric);
    assert_eq!(reader(Port::Right).read(&mut fabric).unwrap(), 40);
    assert_eq!(reader(Port::Up).read(&mut fabric), None);
    assert_eq!(reader(Port::Down).read(&mut fabric), None);
    assert_eq!(reader(Port::Left).read(&mut fabric), None);
    assert_eq!(reader(Port::Right).read(&mut fabric), None);
    tick(&mut cpu, &mut fabric);

    // Last
    tick(&mut cpu, &mut fabric);
    assert_eq!(reader(Port::Up).read(&mut fabric), None);
    assert_eq!(reader(Port::Down).read(&mut fabric), None);
    assert_eq!(reader(Port::Left).read(&mut fabric), None);
    assert_eq!(reader(Port::Right).read(&mut fabric).unwrap(), 50);
    assert_eq!(reader(Port::Right).read(&mut fabric), None);
}

#[test]
fn port_borrow() {
    let e = parse("MOV 10 DOWN").unwrap();
    let mut fabric = vec![CpuWritePorts::new()];
    let down = CpuWritePortsReader::new(0, Port::Down);
    let mut cpu = Cpu::new(e, 0, CpuReadPorts::unconnected());
    cpu.execute(&mut fabric);
    cpu.write_cycle(&mut fabric);
    assert_eq!(down.read(&mut fabric).unwrap(), 10);
}

#[test]
fn blocking_read() {
    let e = parse("MOV UP DOWN\nMOV DOWN ACC").unwrap();
    // Index 0 holds the node's own slots, index 1 those of its neighbour.
    let mut fabric = vec![CpuWritePorts::new(), CpuWritePorts::new()];
    let rports = CpuWritePortsReaders::new(1);
    let rports = CpuReadPorts {
        up: Some(rports.up),
        down: Some(rports.down),
        left: Some(rports.left),
        right: Some(rports.right),
    };
    let out_down = CpuWritePortsReader::new(0, Port::Down);

    let mut cpu = Cpu::new(e, 0, rports);

    // READ -> WRITE -> EXEC state
    assert_eq!(cpu.exec_state(), ExecState::EXEC);
    tick(&mut cpu, &mut fabric);
    assert_eq!(cpu.exec_state(), ExecState::READ(Port::Up));
    fabric[1].write_port(Port::Up, 10);
    assert_eq!(out_down.read(&mut fabric), None);

    tick(&mut cpu, &mut fabric);
    assert_eq!(out_down.read(&mut fabric).unwrap(), 10);
    assert_eq!(cpu.exec_state(), ExecState::WRITE(Port::Down));

    tick(&mut cpu, &mut fabric);
    assert_eq!(out_down.read(&mut fabric), None);
    assert_eq!(cpu.exec_state(), ExecState::EXEC);

    // READ -> EXEC state
    tick(&mut cpu, &mut fabric);
    assert_eq!(cpu.exec_state(), ExecState::READ(Port::Down));
    fabric[1].write_port(Port::Down, 20);

    tick(&mut cpu, &mut fabric);
    assert_eq!(cpu.exec_state(), ExecState::EXEC);
    assert_eq!(cpu.state().acc, 20);
}
