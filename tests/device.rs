use electrolyzer_modbus::decode::RegisterValue;
use electrolyzer_modbus::device::{
    collect_range, read_input_registers, Electrolyzer, IoErrorKind, ModbusConnexion, ModbusError,
};
use electrolyzer_modbus::names::NameMap;
use electrolyzer_modbus::planner::plan_read_ranges;
use electrolyzer_modbus::register::{load_definitions, DataType, Register, RegisterDefinition};

/// A device whose input registers hold `memory`, counting the reads asked of it.
struct FakeDevice {
    memory: Vec<u16>,
    reads: Vec<(u16, u16)>,
    fail_with: Option<ModbusError>,
}

impl ModbusConnexion for FakeDevice {
    fn read_raw_input_registers(&mut self, addr: u16, nb: u16) -> Result<Vec<u16>, ModbusError> {
        self.reads.push((addr, nb));
        if let Some(e) = self.fail_with {
            return Err(e);
        }
        let start = addr as usize;
        Ok(self.memory[start..start + nb as usize].to_vec())
    }
}

fn device() -> FakeDevice {
    let mut memory: Vec<u16> = (0..200u16).collect();
    memory[10] = 0x0001;
    memory[11] = 0x0002;
    memory[20] = 0xFFFF;
    FakeDevice { memory, reads: Vec::new(), fail_with: None }
}

fn def(name: &str, id: u16, type_: &str, bits: u16) -> RegisterDefinition {
    RegisterDefinition { id, name: name.to_string(), type_: type_.to_string(), len: bits }
}

fn electrolyzer() -> Electrolyzer {
    let defs = vec![
        def("pressure", 10, "UInt32", 32),
        def("status", 12, "Enum16", 16),
        def("running", 20, "boolean", 16),
    ];
    Electrolyzer { input_registers: load_definitions(defs).unwrap() }
}

#[test]
fn reads_registers_by_name() {
    let e = electrolyzer();
    let mut dev = device();
    let names = vec!["pressure".to_string(), "running".to_string(), "status".to_string()];
    let values = e.read_input_registers_by_name(&mut dev, names).unwrap();
    assert_eq!(values.len(), 3);
    assert_eq!(values.get(&"pressure".to_string()), Some(&RegisterValue::U32(0x0001_0002)));
    assert_eq!(values.get(&"status".to_string()), Some(&RegisterValue::Enum16(12)));
    assert_eq!(values.get(&"running".to_string()), Some(&RegisterValue::Boolean(true)));
    assert_eq!(dev.reads, vec![(10, 3), (20, 1)]);
}

#[test]
fn unknown_name_is_left_out_without_error() {
    let e = electrolyzer();
    let mut dev = device();
    let names = vec!["status".to_string(), "no_such_register".to_string()];
    let values = e.read_input_registers_by_name(&mut dev, names).unwrap();
    assert_eq!(values.len(), 1);
    assert_eq!(values.get(&"no_such_register".to_string()), None);
    let only_unknown = e.read_input_registers_by_name(&mut dev, vec!["nope".to_string()]).unwrap();
    assert_eq!(only_unknown.len(), 0);
}

#[test]
fn dump_reads_the_whole_catalog() {
    let e = electrolyzer();
    let mut dev = device();
    let values = e.dump_input_registers(&mut dev).unwrap();
    let mut names = values.names();
    names.sort();
    assert_eq!(names, vec!["pressure", "running", "status"]);
}

#[test]
fn a_failed_read_ends_the_call_with_its_error() {
    let e = electrolyzer();
    let mut dev = device();
    dev.fail_with = Some(ModbusError::IOerror(IoErrorKind::ConnectionReset));
    let r = e.dump_input_registers(&mut dev);
    assert_eq!(r.err(), Some(ModbusError::IOerror(IoErrorKind::ConnectionReset)));
}

#[test]
fn a_register_that_does_not_decode_is_dropped() {
    let regs = vec![
        Register { name: "short".to_string(), addr: 0, len: 1, data_type: DataType::UInt32 },
        Register { name: "ok".to_string(), addr: 1, len: 1, data_type: DataType::UInt16 },
    ];
    let mut dev = device();
    let values = read_input_registers(&mut dev, regs).unwrap();
    assert_eq!(values.len(), 1);
    assert_eq!(values.get(&"ok".to_string()), Some(&RegisterValue::U16(1)));
}

#[test]
fn collecting_a_short_buffer_drops_the_members_it_lacks() {
    let regs = vec![
        Register { name: "a".to_string(), addr: 0, len: 1, data_type: DataType::UInt16 },
        Register { name: "b".to_string(), addr: 1, len: 2, data_type: DataType::UInt32 },
    ];
    let ranges = plan_read_ranges(regs);
    let mut result = NameMap::new();
    collect_range(&mut result, &ranges[0], &vec![9, 0x0102]);
    assert_eq!(result.len(), 1);
    assert_eq!(result.get(&"a".to_string()), Some(&RegisterValue::U16(9)));
    collect_range(&mut result, &ranges[0], &vec![4, 0x0102, 0x0304]);
    assert_eq!(result.get(&"a".to_string()), Some(&RegisterValue::U16(4)));
    assert_eq!(result.get(&"b".to_string()), Some(&RegisterValue::U32(0x0102_0304)));
}

#[test]
fn connection_loss_is_recognised() {
    assert!(ModbusError::IOerror(IoErrorKind::BrokenPipe).is_connection_lost());
    assert!(ModbusError::IOerror(IoErrorKind::ConnectionReset).is_connection_lost());
    assert!(!ModbusError::IOerror(IoErrorKind::Other).is_connection_lost());
    assert!(!ModbusError::Exception(2).is_connection_lost());
    assert!(!ModbusError::Protocol.is_connection_lost());
}

#[test]
fn lookup_keeps_the_order_of_the_names_and_skips_unknown_ones() {
    let e = electrolyzer();
    let names = vec!["running".to_string(), "ghost".to_string(), "pressure".to_string()];
    let regs = e.lookup(&names);
    let found: Vec<(&str, u16, u16)> = regs.iter().map(|r| (r.name.as_str(), r.addr, r.len)).collect();
    assert_eq!(found, vec![("running", 20, 1), ("pressure", 10, 2)]);
}
