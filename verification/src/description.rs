//! The description of the register layout that GDB asks for.

use crate::registers::{core_name, numbered, REG_COUNT};
use vstd::prelude::*;

verus! {

/// Target description handed to GDB so that it agrees on the register layout.
pub const TARGET_XML: &'static str = r#"<?xml version="1.0"?>
<!DOCTYPE target SYSTEM "gdb-target.dtd">
<target version="1.0">
  <architecture>tricore</architecture>
  <feature name="org.gnu.gdb.tricore.core">
    <reg name="d0" bitsize="32" type="uint32"/>
    <reg name="d1" bitsize="32" type="uint32"/>
    <reg name="d2" bitsize="32" type="uint32"/>
    <reg name="d3" bitsize="32" type="uint32"/>
    <reg name="d4" bitsize="32" type="uint32"/>
    <reg name="d5" bitsize="32" type="uint32"/>
    <reg name="d6" bitsize="32" type="uint32"/>
    <reg name="d7" bitsize="32" type="uint32"/>
    <reg name="d8" bitsize="32" type="uint32"/>
    <reg name="d9" bitsize="32" type="uint32"/>
    <reg name="d10" bitsize="32" type="uint32"/>
    <reg name="d11" bitsize="32" type="uint32"/>
    <reg name="d12" bitsize="32" type="uint32"/>
    <reg name="d13" bitsize="32" type="uint32"/>
    <reg name="d14" bitsize="32" type="uint32"/>
    <reg name="d15" bitsize="32" type="uint32"/>
    <reg name="a0" bitsize="32" type="data_ptr"/>
    <reg name="a1" bitsize="32" type="data_ptr"/>
    <reg name="a2" bitsize="32" type="data_ptr"/>
    <reg name="a3" bitsize="32" type="data_ptr"/>
    <reg name="a4" bitsize="32" type="data_ptr"/>
    <reg name="a5" bitsize="32" type="data_ptr"/>
    <reg name="a6" bitsize="32" type="data_ptr"/>
    <reg name="a7" bitsize="32" type="data_ptr"/>
    <reg name="a8" bitsize="32" type="data_ptr"/>
    <reg name="a9" bitsize="32" type="data_ptr"/>
    <reg name="a10" bitsize="32" type="data_ptr"/>
    <reg name="a11" bitsize="32" type="data_ptr"/>
    <reg name="a12" bitsize="32" type="data_ptr"/>
    <reg name="a13" bitsize="32" type="data_ptr"/>
    <reg name="a14" bitsize="32" type="data_ptr"/>
    <reg name="a15" bitsize="32" type="data_ptr"/>
    <reg name="pc" bitsize="32" type="code_ptr"/>
    <reg name="psw" bitsize="32" type="uint32"/>
    <reg name="pcxi" bitsize="32" type="uint32"/>
  </feature>
</target>"#;

/// The TriCore architecture. Only its associated functions matter, not its value.
pub enum Tricore {
    /// The only value.
    Architecture,
}

/// The name under which GDB knows the register with the given index.
pub open spec fn gdb_name(index: int) -> Seq<char> {
    if index < 16 {
        numbered('d', index)
    } else if index < 32 {
        numbered('a', index - 16)
    } else if index == 32 {
        "pc"@
    } else if index == 33 {
        "psw"@
    } else {
        "pcxi"@
    }
}

/// The type that GDB shows the register with the given index as.
pub open spec fn gdb_type(index: int) -> Seq<char> {
    if 16 <= index < 32 {
        "data_ptr"@
    } else if index == 32 {
        "code_ptr"@
    } else {
        "uint32"@
    }
}

/// The line that describes the register with the given index.
pub open spec fn register_line(index: int) -> Seq<char> {
    "    <reg name=\""@ + gdb_name(index) + "\" bitsize=\"32\" type=\""@ + gdb_type(index)
        + "\"/>\n"@
}

/// The lines of the first `count` registers.
pub open spec fn register_lines(count: int) -> Seq<char>
    decreases count,
{
    if count <= 0 {
        seq![]
    } else {
        register_lines(count - 1) + register_line(count - 1)
    }
}

/// What comes before the lines of the registers.
pub open spec fn prologue() -> Seq<char> {
    r#"<?xml version="1.0"?>
<!DOCTYPE target SYSTEM "gdb-target.dtd">
<target version="1.0">
  <architecture>tricore</architecture>
  <feature name="org.gnu.gdb.tricore.core">
"#@
}

/// What comes after the lines of the registers.
pub open spec fn epilogue() -> Seq<char> {
    r#"  </feature>
</target>"#@
}

/// The target description: one line for each register, in the order of the register
/// file.
pub open spec fn target_description() -> Seq<char> {
    prologue() + register_lines(REG_COUNT as int) + epilogue()
}

impl Tricore {
    /// The target description.
    pub fn target_description_xml() -> (xml: Option<&'static str>)
        ensures
            xml matches Some(xml) && xml@ == target_description(),
    {
        proof {
            lemma_target_xml();
        }
        Some(TARGET_XML)
    }
}

/// A letter as a capital.
pub open spec fn capital(c: char) -> char {
    if 'a' <= c <= 'z' {
        (c as int - 32) as char
    } else {
        c
    }
}

/// The description names the registers as the core does, but for capitals, so that its
/// order is the one in which they are read and written.
pub proof fn law_description_follows_the_register_file(index: int)
    requires
        0 <= index < REG_COUNT,
    ensures
        gdb_name(index).map_values(|c: char| capital(c)) == core_name(index),
{
    reveal_strlit("pc");
    reveal_strlit("psw");
    reveal_strlit("pcxi");
    assert(gdb_name(index).map_values(|c: char| capital(c)) =~= core_name(index));
}

proof fn lemma_one_more_line(text: Seq<char>, from: int, to: int, index: int)
    requires
        0 <= index,
        0 <= from <= to <= text.len(),
        text.subrange(0, from) == prologue() + register_lines(index),
        text.subrange(from, to) =~= register_line(index),
    ensures
        text.subrange(0, to) == prologue() + register_lines(index + 1),
{
    assert(text.subrange(0, to) =~= text.subrange(0, from) + text.subrange(from, to));
    assert(prologue() + register_lines(index) + register_line(index) =~= prologue() + (
    register_lines(index) + register_line(index)));
}

/// The text of the description, taken apart line by line.
#[verifier::rlimit(50)]
proof fn lemma_target_xml()
    ensures
        TARGET_XML@ == target_description(),
{
    reveal_strlit(r#"<?xml version="1.0"?>
<!DOCTYPE target SYSTEM "gdb-target.dtd">
<target version="1.0">
  <architecture>tricore</architecture>
  <feature name="org.gnu.gdb.tricore.core">
    <reg name="d0" bitsize="32" type="uint32"/>
    <reg name="d1" bitsize="32" type="uint32"/>
    <reg name="d2" bitsize="32" type="uint32"/>
    <reg name="d3" bitsize="32" type="uint32"/>
    <reg name="d4" bitsize="32" type="uint32"/>
    <reg name="d5" bitsize="32" type="uint32"/>
    <reg name="d6" bitsize="32" type="uint32"/>
    <reg name="d7" bitsize="32" type="uint32"/>
    <reg name="d8" bitsize="32" type="uint32"/>
    <reg name="d9" bitsize="32" type="uint32"/>
    <reg name="d10" bitsize="32" type="uint32"/>
    <reg name="d11" bitsize="32" type="uint32"/>
    <reg name="d12" bitsize="32" type="uint32"/>
    <reg name="d13" bitsize="32" type="uint32"/>
    <reg name="d14" bitsize="32" type="uint32"/>
    <reg name="d15" bitsize="32" type="uint32"/>
    <reg name="a0" bitsize="32" type="data_ptr"/>
    <reg name="a1" bitsize="32" type="data_ptr"/>
    <reg name="a2" bitsize="32" type="data_ptr"/>
    <reg name="a3" bitsize="32" type="data_ptr"/>
    <reg name="a4" bitsize="32" type="data_ptr"/>
    <reg name="a5" bitsize="32" type="data_ptr"/>
    <reg name="a6" bitsize="32" type="data_ptr"/>
    <reg name="a7" bitsize="32" type="data_ptr"/>
    <reg name="a8" bitsize="32" type="data_ptr"/>
    <reg name="a9" bitsize="32" type="data_ptr"/>
    <reg name="a10" bitsize="32" type="data_ptr"/>
    <reg name="a11" bitsize="32" type="data_ptr"/>
    <reg name="a12" bitsize="32" type="data_ptr"/>
    <reg name="a13" bitsize="32" type="data_ptr"/>
    <reg name="a14" bitsize="32" type="data_ptr"/>
    <reg name="a15" bitsize="32" type="data_ptr"/>
    <reg name="pc" bitsize="32" type="code_ptr"/>
    <reg name="psw" bitsize="32" type="uint32"/>
    <reg name="pcxi" bitsize="32" type="uint32"/>
  </feature>
</target>"#);
    reveal_strlit(r#"<?xml version="1.0"?>
<!DOCTYPE target SYSTEM "gdb-target.dtd">
<target version="1.0">
  <architecture>tricore</architecture>
  <feature name="org.gnu.gdb.tricore.core">
"#);
    reveal_strlit(r#"  </feature>
</target>"#);
    reveal_strlit("    <reg name=\"");
    reveal_strlit("\" bitsize=\"32\" type=\"");
    reveal_strlit("\"/>\n");
    reveal_strlit("uint32");
    reveal_strlit("data_ptr");
    reveal_strlit("code_ptr");
    reveal_strlit("pc");
    reveal_strlit("psw");
    reveal_strlit("pcxi");
    let text = TARGET_XML@;
    assert(text.subrange(0, 170) =~= prologue() + register_lines(0));
    lemma_one_more_line(text, 170, 218, 0);
    lemma_one_more_line(text, 218, 266, 1);
    lemma_one_more_line(text, 266, 314, 2);
    lemma_one_more_line(text, 314, 362, 3);
    lemma_one_more_line(text, 362, 410, 4);
    lemma_one_more_line(text, 410, 458, 5);
    lemma_one_more_line(text, 458, 506, 6);
    lemma_one_more_line(text, 506, 554, 7);
    lemma_one_more_line(text, 554, 602, 8);
    lemma_one_more_line(text, 602, 650, 9);
    lemma_one_more_line(text, 650, 699, 10);
    lemma_one_more_line(text, 699, 748, 11);
    lemma_one_more_line(text, 748, 797, 12);
    lemma_one_more_line(text, 797, 846, 13);
    lemma_one_more_line(text, 846, 895, 14);
    lemma_one_more_line(text, 895, 944, 15);
    lemma_one_more_line(text, 944, 994, 16);
    lemma_one_more_line(text, 994, 1044, 17);
    lemma_one_more_line(text, 1044, 1094, 18);
    lemma_one_more_line(text, 1094, 1144, 19);
    lemma_one_more_line(text, 1144, 1194, 20);
    lemma_one_more_line(text, 1194, 1244, 21);
    lemma_one_more_line(text, 1244, 1294, 22);
    lemma_one_more_line(text, 1294, 1344, 23);
    lemma_one_more_line(text, 1344, 1394, 24);
    lemma_one_more_line(text, 1394, 1444, 25);
    lemma_one_more_line(text, 1444, 1495, 26);
    lemma_one_more_line(text, 1495, 1546, 27);
    lemma_one_more_line(text, 1546, 1597, 28);
    lemma_one_more_line(text, 1597, 1648, 29);
    lemma_one_more_line(text, 1648, 1699, 30);
    lemma_one_more_line(text, 1699, 1750, 31);
    lemma_one_more_line(text, 1750, 1800, 32);
    lemma_one_more_line(text, 1800, 1849, 33);
    lemma_one_more_line(text, 1849, 1899, 34);
    assert(text.subrange(1899, 1921) =~= epilogue());
    assert(text =~= text.subrange(0, 1899) + text.subrange(1899, 1921));
}

} // verus!
