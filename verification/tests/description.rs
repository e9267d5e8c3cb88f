//! Tests of the target description.

use tricore_probe::description::Tricore;
use tricore_probe::registers::{register_name, REG_COUNT};

#[test]
fn description_is_complete() {
    let expected = r#"<?xml version="1.0"?>
<!DOCTYPE target SYSTEM "gdb-target.dtd">
<target version="1.0">
  <architecture>tricore</architecture>
  <feature name="org.gnu.gdb.tricore.core">
    <reg name="d0" bitsize="32" type="uint32"/>
    <reg name="d1" bitsize="32" type="uint32"/>
    <reg name="d2" bitsize="32" type="uint32"/>
    <reg name="d3" bitsize="32" type="uint32"/>
    <reg name="d4" bitsize="32" type="uint32"/>
    <reg name="d5" bitsize="32" type="uint32"/>
    <reg name="d6" bitsize="32" type="uint32"/>
    <reg name="d7" bitsize="32" type="uint32"/>
    <reg name="d8" bitsize="32" type="uint32"/>
    <reg name="d9" bitsize="32" type="uint32"/>
    <reg name="d10" bitsize="32" type="uint32"/>
    <reg name="d11" bitsize="32" type="uint32"/>
    <reg name="d12" bitsize="32" type="uint32"/>
    <reg name="d13" bitsize="32" type="uint32"/>
    <reg name="d14" bitsize="32" type="uint32"/>
    <reg name="d15" bitsize="32" type="uint32"/>
    <reg name="a0" bitsize="32" type="data_ptr"/>
    <reg name="a1" bitsize="32" type="data_ptr"/>
    <reg name="a2" bitsize="32" type="data_ptr"/>
    <reg name="a3" bitsize="32" type="data_ptr"/>
    <reg name="a4" bitsize="32" type="data_ptr"/>
    <reg name="a5" bitsize="32" type="data_ptr"/>
    <reg name="a6" bitsize="32" type="data_ptr"/>
    <reg name="a7" bitsize="32" type="data_ptr"/>
    <reg name="a8" bitsize="32" type="data_ptr"/>
    <reg name="a9" bitsize="32" type="data_ptr"/>
    <reg name="a10" bitsize="32" type="data_ptr"/>
    <reg name="a11" bitsize="32" type="data_ptr"/>
    <reg name="a12" bitsize="32" type="data_ptr"/>
    <reg name="a13" bitsize="32" type="data_ptr"/>
    <reg name="a14" bitsize="32" type="data_ptr"/>
    <reg name="a15" bitsize="32" type="data_ptr"/>
    <reg name="pc" bitsize="32" type="code_ptr"/>
    <reg name="psw" bitsize="32" type="uint32"/>
    <reg name="pcxi" bitsize="32" type="uint32"/>
  </feature>
</target>"#;
    assert_eq!(Tricore::target_description_xml(), Some(expected));
}

#[test]
fn description_follows_the_register_file() {
    let xml = Tricore::target_description_xml().unwrap();
    let names: Vec<String> = xml
        .split("<reg name=\"")
        .skip(1)
        .map(|rest| rest.split('"').next().unwrap().to_uppercase())
        .collect();
    assert_eq!(names.len(), REG_COUNT);
    for i in 0..REG_COUNT {
        assert_eq!(names[i], register_name(i));
    }
}
