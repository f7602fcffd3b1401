use tis_100::instruction::Port;
use tis_100::port::{CpuWritePorts, CpuWritePortsReader};

#[test]
fn test_cpu_write_ports() {
    let mut fabric = vec![CpuWritePorts::new()];

    let port = CpuWritePortsReader::new(0, Port::Up);
    fabric[0].write_port(Port::Up, 1);
    assert_eq!(fabric[0].slot(Port::Up), Some(1));
    assert_eq!(port.read(&mut fabric), Some(1));
    assert_eq!(port.read(&mut fabric), None);
}
