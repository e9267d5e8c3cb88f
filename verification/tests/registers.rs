//! Tests of the register file.

use tricore_probe::registers::{
    missing_register_message, register_name, RegisterReader, RegisterWriter, TricoreRegId,
    TricoreRegs, REG_BYTES, REG_COUNT,
};

fn sample() -> TricoreRegs {
    let mut regs = TricoreRegs::default();
    for i in 0..16 {
        regs.d[i] = 0xD000_0000 + i as u32;
        regs.a[i] = 0xA000_0000 + i as u32;
    }
    regs.pc = 0x8000_0000;
    regs.psw = 0x0000_0800;
    regs.pcxi = 0x0001_2345;
    regs
}

fn serialized(regs: &TricoreRegs) -> Vec<u8> {
    let mut buffer: Vec<u8> = Vec::new();
    for byte in regs.gdb_serialize() {
        buffer.push(byte.unwrap());
    }
    buffer
}

#[test]
fn register_file_round_trips() {
    let mut regs = TricoreRegs::default();
    for i in 0..16 {
        regs.d[i] = 0xD000_0000 + i as u32;
        regs.a[i] = 0xA000_0000 + i as u32;
    }
    regs.pc = 0x8000_0000;
    regs.psw = 0x0000_0800;
    regs.pcxi = 0x0001_2345;

    let mut buffer = Vec::new();
    for byte in regs.gdb_serialize() {
        buffer.push(byte.unwrap());
    }
    assert_eq!(buffer.len(), REG_BYTES);

    let mut decoded = TricoreRegs::default();
    decoded.gdb_deserialize(&buffer).unwrap();
    assert_eq!(regs, decoded);
}

#[test]
fn default_registers_are_zero() {
    let regs = TricoreRegs::default();
    assert_eq!(regs.d, [0; 16]);
    assert_eq!(regs.a, [0; 16]);
    assert_eq!((regs.pc, regs.psw, regs.pcxi), (0, 0, 0));
}

#[test]
fn registers_are_little_endian_in_order() {
    let mut regs = TricoreRegs::default();
    regs.d[1] = 0x0102_0304;
    regs.a[0] = 0x1112_1314;
    regs.pc = 0x2122_2324;
    regs.psw = 0x3132_3334;
    regs.pcxi = 0xFFFE_FDFC;
    let bytes = serialized(&regs);
    assert_eq!(bytes.len(), 140);
    assert_eq!(bytes[0..4], [0, 0, 0, 0]);
    assert_eq!(bytes[4..8], [0x04, 0x03, 0x02, 0x01]);
    assert_eq!(bytes[64..68], [0x14, 0x13, 0x12, 0x11]);
    assert_eq!(bytes[128..132], [0x24, 0x23, 0x22, 0x21]);
    assert_eq!(bytes[132..136], [0x34, 0x33, 0x32, 0x31]);
    assert_eq!(bytes[136..140], [0xFC, 0xFD, 0xFE, 0xFF]);
}

#[test]
fn too_few_bytes_change_nothing() {
    let mut regs = sample();
    assert_eq!(regs.gdb_deserialize(&vec![0xFF; REG_BYTES - 1]), Err(()));
    assert_eq!(regs, sample());
    assert_eq!(regs.gdb_deserialize(&[]), Err(()));
    assert_eq!(regs, sample());
}

#[test]
fn bytes_behind_the_registers_are_ignored() {
    let mut bytes = serialized(&sample());
    bytes.push(0x55);
    bytes.push(0xAA);
    let mut regs = TricoreRegs::default();
    assert_eq!(regs.gdb_deserialize(&bytes), Ok(()));
    assert_eq!(regs, sample());
}

#[test]
fn received_bytes_are_sent_back() {
    let bytes: Vec<u8> = (0..REG_BYTES).map(|i| (i * 7 + 3) as u8).collect();
    let mut regs = TricoreRegs::default();
    assert_eq!(regs.gdb_deserialize(&bytes), Ok(()));
    assert_eq!(serialized(&regs), bytes);
}

#[test]
fn program_counter_is_the_pc_register() {
    assert_eq!(sample().pc(), 0x8000_0000);
}

#[test]
fn register_ids_end_with_the_register_file() {
    let (_, size) = TricoreRegId::from_raw_id(0).unwrap();
    assert_eq!(size, Some(4));
    let (_, size) = TricoreRegId::from_raw_id(REG_COUNT - 1).unwrap();
    assert_eq!(size, Some(4));
    assert!(TricoreRegId::from_raw_id(REG_COUNT).is_none());
    assert!(TricoreRegId::from_raw_id(usize::MAX).is_none());
}

#[test]
fn registers_have_the_names_of_the_core() {
    let names: Vec<&str> = (0..REG_COUNT).map(|i| register_name(i)).collect();
    let expected = [
        "D0", "D1", "D2", "D3", "D4", "D5", "D6", "D7", "D8", "D9", "D10", "D11", "D12", "D13",
        "D14", "D15", "A0", "A1", "A2", "A3", "A4", "A5", "A6", "A7", "A8", "A9", "A10", "A11",
        "A12", "A13", "A14", "A15", "PC", "PSW", "PCXI",
    ];
    assert_eq!(names, expected);
    for i in 0..REG_COUNT {
        for j in 0..i {
            assert_ne!(names[i], names[j]);
        }
    }
}

#[test]
fn missing_register_is_named() {
    assert_eq!(missing_register_message("PCXI"), "Core has no register PCXI");
}

#[test]
fn written_registers_are_read_back() {
    let regs = sample();
    let mut core: Vec<(&str, u32)> = Vec::new();
    let mut writer = RegisterWriter::new(&regs);
    while let Some((name, value)) = writer.pending() {
        core.push((name, value));
        writer.written();
    }
    assert_eq!(core.len(), 35);
    assert_eq!(core[3], ("D3", 0xD000_0003));
    assert_eq!(core[26], ("A10", 0xA000_000A));
    assert_eq!(core[33], ("PSW", 0x0000_0800));

    let mut reader = RegisterReader::new();
    while let Some(name) = reader.wanted() {
        let (_, value) = core.iter().find(|(known, _)| *known == name).unwrap();
        reader.receive(*value);
    }
    assert_eq!(reader.finish(), Some(regs));
}

#[test]
fn unfinished_reader_has_no_registers() {
    let mut reader = RegisterReader::new();
    assert_eq!(reader.wanted(), Some("D0"));
    for i in 0..34 {
        reader.receive(i);
    }
    assert_eq!(reader.wanted(), Some("PCXI"));
    assert_eq!(reader.finish(), None);
}
