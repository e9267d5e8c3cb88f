//! The TriCore register file: its transfer to and from GDB as bytes, and to and from
//! the core one register at a time.

use vstd::prelude::*;
use vstd::string::StringExecFns;

verus! {

/// Number of registers exposed to GDB: D0-D15, A0-A15, PC, PSW, PCXI.
pub const REG_COUNT: usize = 35;

/// Number of bytes in the serialized register file (all registers are 32-bit).
pub const REG_BYTES: usize = REG_COUNT * 4;

/// The TriCore register file as seen by GDB.
#[derive(Debug, Clone, PartialEq)]
pub struct TricoreRegs {
    /// Data registers D0-D15.
    pub d: [u32; 16],
    /// Address registers A0-A15 (A10 is the stack pointer, A11 the return address).
    pub a: [u32; 16],
    /// Program counter.
    pub pc: u32,
    /// Program status word.
    pub psw: u32,
    /// Previous context information.
    pub pcxi: u32,
}

/// The four bytes of a word, the least significant one first.
pub open spec fn le_bytes(word: u32) -> Seq<u8> {
    seq![
        (word % 0x100) as u8,
        (word / 0x100 % 0x100) as u8,
        (word / 0x1_0000 % 0x100) as u8,
        (word / 0x100_0000) as u8,
    ]
}

/// The word with the given index in a run of bytes.
pub open spec fn word_at(bytes: Seq<u8>, index: int) -> u32 {
    let at = index * 4;
    (bytes[at] + 0x100 * bytes[at + 1] + 0x1_0000 * bytes[at + 2] + 0x100_0000 * bytes[at
        + 3]) as u32
}

impl TricoreRegs {
    /// The registers in the order in which they are transferred.
    pub open spec fn words(self) -> Seq<u32> {
        self.d@ + self.a@ + seq![self.pc, self.psw, self.pcxi]
    }

    /// The serialized register file.
    pub open spec fn bytes(self) -> Seq<u8> {
        Seq::new(REG_BYTES as nat, |i: int| le_bytes(self.words()[i / 4])[i % 4])
    }

    /// Whether this is the register file that a run of bytes starts with.
    pub open spec fn is_read_from(self, bytes: Seq<u8>) -> bool {
        &&& bytes.len() >= REG_BYTES
        &&& forall|i: int| 0 <= i < REG_COUNT ==> #[trigger] self.words()[i] == word_at(bytes, i)
    }

    /// The program counter.
    pub fn pc(&self) -> (pc: u32)
        ensures
            pc == self.pc,
    {
        self.pc
    }

    fn word(&self, index: usize) -> (word: u32)
        requires
            index < REG_COUNT,
        ensures
            word == self.words()[index as int],
    {
        if index < 16 {
            self.d[index]
        } else if index < 32 {
            self.a[index - 16]
        } else if index == 32 {
            self.pc
        } else if index == 33 {
            self.psw
        } else {
            self.pcxi
        }
    }

    fn set_word(&mut self, index: usize, word: u32)
        requires
            index < REG_COUNT,
        ensures
            final(self).words() == old(self).words().update(index as int, word),
    {
        if index < 16 {
            self.d[index] = word;
        } else if index < 32 {
            self.a[index - 16] = word;
        } else if index == 32 {
            self.pc = word;
        } else if index == 33 {
            self.psw = word;
        } else {
            self.pcxi = word;
        }
        assert(self.words() =~= old(self).words().update(index as int, word));
    }

    /// Serializes the register file: the bytes in the order in which GDB expects them,
    /// each of them available.
    #[verifier::rlimit(50)]
    pub fn gdb_serialize(&self) -> (bytes: Vec<Option<u8>>)
        ensures
            bytes@ == self.bytes().map_values(|byte: u8| Some(byte)),
            bytes@.len() == 140,
            holds_registers(bytes@.map_values(|byte: Option<u8>| byte.unwrap()), *self),
    {
        let mut bytes: Vec<Option<u8>> = Vec::new();
        let mut index: usize = 0;
        while index < REG_COUNT
            invariant
                index <= REG_COUNT,
                bytes@.len() == index * 4,
                forall|i: int|
                    0 <= i < bytes@.len() ==> bytes@[i] == Some(#[trigger] self.bytes()[i]),
            decreases REG_COUNT - index,
        {
            let word = self.word(index);
            assert((word & 0xFF) as u8 == word % 0x100 && ((word >> 8) & 0xFF) as u8 == word / 0x100
                % 0x100 && ((word >> 16) & 0xFF) as u8 == word / 0x1_0000 % 0x100 && (word >> 24) as u8
                == word / 0x100_0000) by (bit_vector);
            bytes.push(Some((word & 0xFF) as u8));
            bytes.push(Some(((word >> 8) & 0xFF) as u8));
            bytes.push(Some(((word >> 16) & 0xFF) as u8));
            bytes.push(Some((word >> 24) as u8));
            index += 1;
        }
        assert(bytes@ =~= self.bytes().map_values(|byte: u8| Some(byte)));
        proof {
            law_serialized_registers_are_in_their_places(*self);
            assert(bytes@.map_values(|byte: Option<u8>| byte.unwrap()) =~= self.bytes());
        }
        bytes
    }

    /// Reads the register file from the bytes that GDB sent. Bytes behind it are ignored;
    /// too few bytes are an error.
    #[verifier::rlimit(50)]
    pub fn gdb_deserialize(&mut self, bytes: &[u8]) -> (result: Result<(), ()>)
        ensures
            result is Ok <==> bytes@.len() >= 140,
            result is Ok ==> final(self).is_read_from(bytes@),
            result is Ok ==> holds_registers(bytes@, *final(self)),
            result is Err ==> *final(self) == *old(self),
    {
        if bytes.len() < REG_BYTES {
            return Err(());
        }
        let mut index: usize = 0;
        while index < REG_COUNT
            invariant
                index <= REG_COUNT,
                bytes@.len() >= REG_BYTES,
                forall|i: int| 0 <= i < index ==> #[trigger] self.words()[i] == word_at(bytes@, i),
            decreases REG_COUNT - index,
        {
            let at: usize = index * 4;
            let (b0, b1, b2, b3) = (bytes[at], bytes[at + 1], bytes[at + 2], bytes[at + 3]);
            let word: u32 = b0 as u32 | (b1 as u32) << 8 | (b2 as u32) << 16 | (b3 as u32) << 24;
            assert(word == b0 + 0x100 * b1 + 0x1_0000 * b2 + 0x100_0000 * b3) by (bit_vector)
                requires
                    word == b0 as u32 | (b1 as u32) << 8 | (b2 as u32) << 16 | (b3 as u32) << 24,
            ;
            self.set_word(index, word);
            index += 1;
        }
        proof {
            law_registers_are_read_from_their_places(bytes@, *self);
        }
        Ok(())
    }
}

impl Default for TricoreRegs {
    fn default() -> (regs: Self)
        ensures
            forall|i: int| 0 <= i < REG_COUNT ==> #[trigger] regs.words()[i] == 0,
            forall|i: int| 0 <= i < 16 ==> #[trigger] regs.d@[i] == 0 && regs.a@[i] == 0,
            regs.pc == 0 && regs.psw == 0 && regs.pcxi == 0,
    {
        TricoreRegs { d: [0;16], a: [0;16], pc: 0, psw: 0, pcxi: 0 }
    }
}

/// Registers with the same words are the same.
proof fn lemma_words_determine_registers(one: TricoreRegs, other: TricoreRegs)
    requires
        one.words() == other.words(),
    ensures
        one == other,
{
    let words = one.words();
    assert forall|i: int| 0 <= i < 16 implies one.d@[i] == other.d@[i] by {
        assert(words[i] == one.d@[i] && other.words()[i] == other.d@[i]);
    }
    assert forall|i: int| 0 <= i < 16 implies one.a@[i] == other.a@[i] by {
        assert(words[16 + i] == one.a@[i] && other.words()[16 + i] == other.a@[i]);
    }
    assert(one.d =~= other.d);
    assert(one.a =~= other.a);
    assert(words[32] == one.pc && other.words()[32] == other.pc);
    assert(words[33] == one.psw && other.words()[33] == other.psw);
    assert(words[34] == one.pcxi && other.words()[34] == other.pcxi);
}

/// The word of four bytes has those bytes.
proof fn lemma_word_has_its_bytes(bytes: Seq<u8>, index: int)
    requires
        0 <= index,
        index * 4 + 4 <= bytes.len(),
    ensures
        le_bytes(word_at(bytes, index)) == bytes.subrange(index * 4, index * 4 + 4),
{
    let at = index * 4;
    let (b0, b1, b2, b3) = (bytes[at], bytes[at + 1], bytes[at + 2], bytes[at + 3]);
    let word = word_at(bytes, index);
    assert(word % 0x100 == b0 && word / 0x100 % 0x100 == b1 && word / 0x1_0000 % 0x100 == b2 && word
        / 0x100_0000 == b3) by (bit_vector)
        requires
            word == b0 + 0x100 * b1 + 0x1_0000 * b2 + 0x100_0000 * b3,
    ;
    assert(le_bytes(word) =~= bytes.subrange(at, at + 4));
}

/// The bytes of a word have that word.
proof fn lemma_bytes_have_their_word(bytes: Seq<u8>, index: int, word: u32)
    requires
        0 <= index,
        index * 4 + 4 <= bytes.len(),
        forall|k: int| 0 <= k < 4 ==> bytes[index * 4 + k] == #[trigger] le_bytes(word)[k],
    ensures
        word_at(bytes, index) == word,
{
    let at = index * 4;
    assert(bytes[at + 0] == le_bytes(word)[0]);
    assert(bytes[at + 1] == le_bytes(word)[1]);
    assert(bytes[at + 2] == le_bytes(word)[2]);
    assert(bytes[at + 3] == le_bytes(word)[3]);
    assert(word == (word % 0x100) + 0x100 * (word / 0x100 % 0x100) + 0x1_0000 * (word / 0x1_0000
        % 0x100) + 0x100_0000 * (word / 0x100_0000)) by (bit_vector);
}

/// What is serialized is read back as it was, whatever bytes come behind it.
#[verifier::rlimit(50)]
pub proof fn law_register_file_round_trips(
    regs: TricoreRegs,
    behind: Seq<u8>,
    decoded: TricoreRegs,
)
    ensures
        decoded.is_read_from(regs.bytes() + behind) <==> decoded == regs,
{
    let bytes = regs.bytes() + behind;
    assert forall|i: int| 0 <= i < REG_COUNT implies word_at(bytes, i) == #[trigger] regs.words()[i] by {
        let word = regs.words()[i];
        assert forall|k: int| 0 <= k < 4 implies bytes[i * 4 + k] == #[trigger] le_bytes(
            word,
        )[k] by {
            assert((i * 4 + k) / 4 == i && (i * 4 + k) % 4 == k);
            assert(bytes[i * 4 + k] == regs.bytes()[i * 4 + k]);
        }
        lemma_bytes_have_their_word(bytes, i, word);
    }
    assert(regs.is_read_from(bytes));
    if decoded.is_read_from(bytes) {
        assert forall|i: int| 0 <= i < REG_COUNT implies decoded.words()[i]
            == regs.words()[i] by {
            assert(regs.words()[i] == word_at(bytes, i));
        }
        assert(decoded.words() =~= regs.words());
        lemma_words_determine_registers(decoded, regs);
    }
}

/// What was read is serialized to the bytes that it was read from.
#[verifier::rlimit(50)]
pub proof fn law_received_bytes_are_sent_back(bytes: Seq<u8>, decoded: TricoreRegs)
    requires
        decoded.is_read_from(bytes),
    ensures
        decoded.bytes() == bytes.take(REG_BYTES as int),
{
    assert forall|i: int| 0 <= i < REG_BYTES implies #[trigger] decoded.bytes()[i]
        == bytes[i] by {
        let index = i / 4;
        assert(decoded.words()[index] == word_at(bytes, index));
        lemma_word_has_its_bytes(bytes, index);
        assert(bytes.subrange(index * 4, index * 4 + 4)[i % 4] == bytes[i]);
    }
    assert(decoded.bytes() =~= bytes.take(REG_BYTES as int));
}

/// Identifies a single register by its index in the register file.
#[derive(Debug, Clone, Copy)]
pub struct TricoreRegId(usize);

impl TricoreRegId {
    /// The index of the register in the register file.
    pub closed spec fn index(self) -> usize {
        self.0
    }

    /// The register with the given number, with its size in bytes. There is none for a
    /// number beyond the register file.
    pub fn from_raw_id(id: usize) -> (register: Option<(TricoreRegId, Option<usize>)>)
        ensures
            match register {
                Some((register, size)) => id < 35 && register.index() == id && size == Some(
                    4usize,
                ),
                None => id >= 35,
            },
    {
        if id < REG_COUNT {
            Some((TricoreRegId(id), Some(4)))
        } else {
            None
        }
    }
}

/// The digit of a number below ten.
pub open spec fn digit(n: int) -> char {
    (48 + n) as char
}

/// A letter followed by a number below twenty.
pub open spec fn numbered(letter: char, n: int) -> Seq<char> {
    if n < 10 {
        seq![letter, digit(n)]
    } else {
        seq![letter, '1', digit(n - 10)]
    }
}

/// The name under which the core knows the register with the given index.
pub open spec fn core_name(index: int) -> Seq<char> {
    if index < 16 {
        numbered('D', index)
    } else if index < 32 {
        numbered('A', index - 16)
    } else if index == 32 {
        seq!['P', 'C']
    } else if index == 33 {
        seq!['P', 'S', 'W']
    } else {
        seq!['P', 'C', 'X', 'I']
    }
}

/// The name under which the core knows the register with the given index.
pub fn register_name(index: usize) -> (name: &'static str)
    requires
        index < REG_COUNT,
    ensures
        name@ == core_name(index as int),
{
    proof {
        reveal_strlit("D0");
        reveal_strlit("D1");
        reveal_strlit("D2");
        reveal_strlit("D3");
        reveal_strlit("D4");
        reveal_strlit("D5");
        reveal_strlit("D6");
        reveal_strlit("D7");
        reveal_strlit("D8");
        reveal_strlit("D9");
        reveal_strlit("D10");
        reveal_strlit("D11");
        reveal_strlit("D12");
        reveal_strlit("D13");
        reveal_strlit("D14");
        reveal_strlit("D15");
        reveal_strlit("A0");
        reveal_strlit("A1");
        reveal_strlit("A2");
        reveal_strlit("A3");
        reveal_strlit("A4");
        reveal_strlit("A5");
        reveal_strlit("A6");
        reveal_strlit("A7");
        reveal_strlit("A8");
        reveal_strlit("A9");
        reveal_strlit("A10");
        reveal_strlit("A11");
        reveal_strlit("A12");
        reveal_strlit("A13");
        reveal_strlit("A14");
        reveal_strlit("A15");
        reveal_strlit("PC");
        reveal_strlit("PSW");
        reveal_strlit("PCXI");
    }
    let name: &'static str = match index {
        0 => "D0",
        1 => "D1",
        2 => "D2",
        3 => "D3",
        4 => "D4",
        5 => "D5",
        6 => "D6",
        7 => "D7",
        8 => "D8",
        9 => "D9",
        10 => "D10",
        11 => "D11",
        12 => "D12",
        13 => "D13",
        14 => "D14",
        15 => "D15",
        16 => "A0",
        17 => "A1",
        18 => "A2",
        19 => "A3",
        20 => "A4",
        21 => "A5",
        22 => "A6",
        23 => "A7",
        24 => "A8",
        25 => "A9",
        26 => "A10",
        27 => "A11",
        28 => "A12",
        29 => "A13",
        30 => "A14",
        31 => "A15",
        32 => "PC",
        33 => "PSW",
        _ => "PCXI",
    };
    assert(name@ =~= core_name(index as int));
    name
}

/// The message for a core that does not know a register.
pub fn missing_register_message(name: &str) -> (message: String)
    ensures
        message@ == "Core has no register "@ + name@,
{
    let mut message = "Core has no register ".to_owned();
    message.append(name);
    message
}

/// Collects the register file from a core that is read one register at a time.
///
/// Whoever runs it reads the register that [`RegisterReader::wanted`] names, hands the
/// value to [`RegisterReader::receive`], and goes on until nothing is wanted any more.
#[derive(Debug)]
pub struct RegisterReader {
    values: Vec<u32>,
}

impl RegisterReader {
    /// The values received so far.
    pub closed spec fn received(self) -> Seq<u32> {
        self.values@
    }

    /// A reader that has received nothing.
    pub fn new() -> (reader: Self)
        ensures
            reader.received() == Seq::<u32>::empty(),
    {
        RegisterReader { values: Vec::new() }
    }

    /// The name of the register to read next, or `None` once all have been read.
    pub fn wanted(&self) -> (name: Option<&'static str>)
        ensures
            match name {
                Some(name) => self.received().len() < REG_COUNT && name@ == core_name(
                    self.received().len() as int,
                ),
                None => self.received().len() >= REG_COUNT,
            },
    {
        if self.values.len() < REG_COUNT {
            Some(register_name(self.values.len()))
        } else {
            None
        }
    }

    /// Takes the value of the register that was wanted.
    pub fn receive(&mut self, value: u32)
        requires
            old(self).received().len() < REG_COUNT,
        ensures
            final(self).received() == old(self).received().push(value),
    {
        self.values.push(value);
    }

    /// The register file, once all registers have been read.
    pub fn finish(self) -> (regs: Option<TricoreRegs>)
        ensures
            match regs {
                Some(regs) => self.received().len() >= REG_COUNT && regs.words()
                    == self.received().take(REG_COUNT as int),
                None => self.received().len() < REG_COUNT,
            },
    {
        if self.values.len() < REG_COUNT {
            return None;
        }
        let mut regs = TricoreRegs::default();
        let mut index: usize = 0;
        while index < REG_COUNT
            invariant
                index <= REG_COUNT <= self.values@.len(),
                forall|i: int| 0 <= i < index ==> #[trigger] regs.words()[i] == self.values@[i],
            decreases REG_COUNT - index,
        {
            regs.set_word(index, self.values[index]);
            index += 1;
        }
        assert(regs.words() =~= self.values@.take(REG_COUNT as int));
        Some(regs)
    }
}

/// Hands out the register file to a core that is written one register at a time.
///
/// Whoever runs it writes the register that [`RegisterWriter::pending`] names, reports
/// that with [`RegisterWriter::written`], and goes on until nothing is pending any more.
#[derive(Debug)]
pub struct RegisterWriter<'a> {
    regs: &'a TricoreRegs,
    next: usize,
}

impl<'a> RegisterWriter<'a> {
    /// The register file that is handed out.
    pub closed spec fn regs(self) -> TricoreRegs {
        *self.regs
    }

    /// The number of registers written so far.
    pub closed spec fn count(self) -> int {
        self.next as int
    }

    /// A writer that has not written anything.
    pub fn new(regs: &'a TricoreRegs) -> (writer: Self)
        ensures
            writer.regs() == *regs,
            writer.count() == 0,
    {
        RegisterWriter { regs, next: 0 }
    }

    /// The name of the register to write next with its value, or `None` once all have
    /// been written.
    pub fn pending(&self) -> (register: Option<(&'static str, u32)>)
        ensures
            match register {
                Some((name, value)) => self.count() < REG_COUNT && name@ == core_name(self.count())
                    && value == self.regs().words()[self.count()],
                None => self.count() >= REG_COUNT,
            },
    {
        if self.next < REG_COUNT {
            Some((register_name(self.next), self.regs.word(self.next)))
        } else {
            None
        }
    }

    /// Takes note that the pending register was written.
    pub fn written(&mut self)
        requires
            old(self).count() < REG_COUNT,
        ensures
            final(self).count() == old(self).count() + 1,
            final(self).regs() == old(self).regs(),
    {
        self.next += 1;
    }
}

/// The names and values of the registers, in the order in which they are transferred.
pub open spec fn named_words(regs: TricoreRegs) -> Seq<(Seq<char>, u32)> {
    Seq::new(REG_COUNT as nat, |i: int| (core_name(i), regs.words()[i]))
}

/// Every register has a name of its own, so that the core takes no value for another
/// register than the one that it belongs to.
pub proof fn law_register_names_differ(one: int, other: int)
    requires
        0 <= one < REG_COUNT,
        0 <= other < REG_COUNT,
        core_name(one) == core_name(other),
    ensures
        one == other,
{
    let (left, right) = (core_name(one), core_name(other));
    assert(left.len() == right.len());
    assert(left[0] == right[0] && left[1] == right[1]);
    if left.len() > 2 {
        assert(left[2] == right[2]);
    }
}

/// The registers of a core, by their names, after values were written one by one.
pub open spec fn after_writes(
    core: Map<Seq<char>, u32>,
    writes: Seq<(Seq<char>, u32)>,
) -> Map<Seq<char>, u32>
    decreases writes.len(),
{
    if writes.len() == 0 {
        core
    } else {
        after_writes(core, writes.drop_last()).insert(writes.last().0, writes.last().1)
    }
}

proof fn lemma_write_stays(core: Map<Seq<char>, u32>, regs: TricoreRegs, count: int, index: int)
    requires
        0 <= index < count <= REG_COUNT,
    ensures
        after_writes(core, named_words(regs).take(count))[core_name(index)]
            == regs.words()[index],
    decreases count,
{
    let writes = named_words(regs).take(count);
    assert(writes.drop_last() =~= named_words(regs).take(count - 1));
    if index < count - 1 {
        lemma_write_stays(core, regs, count - 1, index);
        if core_name(index) == core_name(count - 1) {
            law_register_names_differ(index, count - 1);
        }
    }
}

/// The register file that is read by name from a core is the one that was last written
/// to it, whatever the core held before.
pub proof fn law_written_registers_are_read_back(
    core: Map<Seq<char>, u32>,
    written: TricoreRegs,
    read: TricoreRegs,
)
    requires
        forall|i: int|
            0 <= i < REG_COUNT ==> #[trigger] read.words()[i] == after_writes(
                core,
                named_words(written),
            )[core_name(i)],
    ensures
        read == written,
{
    assert(named_words(written).take(REG_COUNT as int) =~= named_words(written));
    assert forall|i: int| 0 <= i < REG_COUNT implies #[trigger] read.words()[i]
        == written.words()[i] by {
        lemma_write_stays(core, written, REG_COUNT as int, i);
    }
    assert(read.words() =~= written.words());
    lemma_words_determine_registers(read, written);
}

/// Whether four bytes from `at` on are a word, the least significant one first.
pub open spec fn holds_word(bytes: Seq<u8>, at: int, word: u32) -> bool {
    word == bytes[at] + 0x100 * bytes[at + 1] + 0x1_0000 * bytes[at + 2] + 0x100_0000 * bytes[at
        + 3]
}

/// Whether bytes hold a register file: four bytes for each register, in the order of
/// D0-D15, A0-A15, PC, PSW and PCXI.
pub open spec fn holds_registers(bytes: Seq<u8>, regs: TricoreRegs) -> bool {
    &&& bytes.len() >= 140
    &&& forall|i: int| 0 <= i < 16 ==> #[trigger] holds_word(bytes, 4 * i, regs.d@[i])
    &&& forall|i: int| 0 <= i < 16 ==> #[trigger] holds_word(bytes, 64 + 4 * i, regs.a@[i])
    &&& holds_word(bytes, 128, regs.pc)
    &&& holds_word(bytes, 132, regs.psw)
    &&& holds_word(bytes, 136, regs.pcxi)
}

/// The words of the register file are D0-D15, then A0-A15, then PC, PSW and PCXI.
pub proof fn law_words_are_in_order(regs: TricoreRegs)
    ensures
        regs.words().len() == 35,
        forall|i: int|
            #![trigger regs.d@[i]]
            #![trigger regs.a@[i]]
            0 <= i < 16 ==> regs.words()[i] == regs.d@[i] && regs.words()[16 + i] == regs.a@[i],
        regs.words()[32] == regs.pc,
        regs.words()[33] == regs.psw,
        regs.words()[34] == regs.pcxi,
{
}

/// The bytes of a serialized register file have the registers in their places: the data
/// registers, then the address registers, then PC, PSW and PCXI, each of them as four bytes
/// with the least significant one first.
#[verifier::rlimit(50)]
pub proof fn law_serialized_registers_are_in_their_places(regs: TricoreRegs)
    ensures
        regs.bytes().len() == 140,
        holds_registers(regs.bytes(), regs),
{
    let bytes = regs.bytes();
    law_words_are_in_order(regs);
    assert forall|index: int| 0 <= index < 35 implies #[trigger] holds_word(
        bytes,
        4 * index,
        regs.words()[index],
    ) by {
        let word = regs.words()[index];
        assert forall|k: int| 0 <= k < 4 implies bytes[index * 4 + k] == #[trigger] le_bytes(
            word,
        )[k] by {
            assert((index * 4 + k) / 4 == index && (index * 4 + k) % 4 == k);
        }
        lemma_bytes_have_their_word(bytes, index, word);
        let (b0, b1, b2, b3) = (
            bytes[index * 4],
            bytes[index * 4 + 1],
            bytes[index * 4 + 2],
            bytes[index * 4 + 3],
        );
        assert(0 <= b0 + 0x100 * b1 + 0x1_0000 * b2 + 0x100_0000 * b3 <= 0xFFFF_FFFF);
    }
    assert forall|i: int| 0 <= i < 16 implies #[trigger] holds_word(
        bytes,
        4 * i,
        regs.d@[i],
    ) by {
        assert(holds_word(bytes, 4 * i, regs.words()[i]));
    }
    assert forall|i: int| 0 <= i < 16 implies #[trigger] holds_word(
        bytes,
        64 + 4 * i,
        regs.a@[i],
    ) by {
        assert(holds_word(bytes, 4 * (16 + i), regs.words()[16 + i]));
    }
    assert(holds_word(bytes, 4int * 32, regs.words()[32]));
    assert(holds_word(bytes, 4int * 33, regs.words()[33]));
    assert(holds_word(bytes, 4int * 34, regs.words()[34]));
}

/// A register file is read from bytes exactly when the bytes have its registers in their
/// places.
#[verifier::rlimit(50)]
pub proof fn law_registers_are_read_from_their_places(bytes: Seq<u8>, decoded: TricoreRegs)
    ensures
        decoded.is_read_from(bytes) <==> holds_registers(bytes, decoded),
{
    law_words_are_in_order(decoded);
    if bytes.len() >= 140 {
        assert forall|index: int| 0 <= index < 35 implies (#[trigger] decoded.words()[index]
            == word_at(bytes, index) <==> holds_word(
            bytes,
            4 * index,
            decoded.words()[index],
        )) by {
            let (b0, b1, b2, b3) = (
                bytes[index * 4],
                bytes[index * 4 + 1],
                bytes[index * 4 + 2],
                bytes[index * 4 + 3],
            );
            assert(0 <= b0 + 0x100 * b1 + 0x1_0000 * b2 + 0x100_0000 * b3 <= 0xFFFF_FFFF);
        }
    }
    if decoded.is_read_from(bytes) {
        assert forall|i: int| 0 <= i < 16 implies #[trigger] holds_word(
            bytes,
            4 * i,
            decoded.d@[i],
        ) by {
            assert(decoded.words()[i] == word_at(bytes, i));
        }
        assert forall|i: int| 0 <= i < 16 implies #[trigger] holds_word(
            bytes,
            64 + 4 * i,
            decoded.a@[i],
        ) by {
            assert(decoded.words()[16 + i] == word_at(bytes, 16 + i));
        }
        assert(decoded.words()[32] == word_at(bytes, 32));
        assert(decoded.words()[33] == word_at(bytes, 33));
        assert(decoded.words()[34] == word_at(bytes, 34));
    }
    if holds_registers(bytes, decoded) {
        assert forall|index: int| 0 <= index < REG_COUNT implies #[trigger] decoded.words()[index]
            == word_at(bytes, index) by {
            if index < 16 {
                assert(holds_word(bytes, 4 * index, decoded.d@[index]));
            } else if index < 32 {
                assert(holds_word(bytes, 64 + 4 * (index - 16), decoded.a@[index - 16]));
            }
        }
    }
}

/// The number that decimal digits spell.
pub open spec fn decimal(digits: Seq<char>) -> int
    decreases digits.len(),
{
    if digits.len() == 0 {
        0
    } else {
        10 * decimal(digits.drop_last()) + (digits.last() as int - 48)
    }
}

/// Whether a name is a letter and then a number in decimal digits, without a leading zero.
pub open spec fn spells(name: Seq<char>, letter: char, number: int) -> bool {
    &&& name.len() >= 2
    &&& name[0] == letter
    &&& forall|i: int| 1 <= i < name.len() ==> '0' <= #[trigger] name[i] <= '9'
    &&& name.len() > 2 ==> name[1] != '0'
    &&& decimal(name.skip(1)) == number
}

proof fn lemma_numbered_spells(letter: char, n: int)
    requires
        0 <= n < 20,
    ensures
        spells(numbered(letter, n), letter, n),
{
    let digits = numbered(letter, n).skip(1);
    reveal_with_fuel(decimal, 3);
    if n < 10 {
        assert(digits =~= seq![digit(n)]);
        assert(digits.drop_last() =~= Seq::<char>::empty());
    } else {
        assert(digits =~= seq!['1', digit(n - 10)]);
        assert(digits.drop_last() =~= seq!['1']);
        assert(digits.drop_last().drop_last() =~= Seq::<char>::empty());
    }
}

/// The core knows each register by the name that its place in the register file calls for,
/// and is given the value of that register: D or A with the number of the register, or PC,
/// PSW or PCXI.
pub proof fn law_values_go_with_their_names(regs: TricoreRegs, i: int)
    requires
        0 <= i < 16,
    ensures
        named_words(regs).len() == 35,
        spells(named_words(regs)[i].0, 'D', i) && named_words(regs)[i].1 == regs.d@[i],
        spells(named_words(regs)[16 + i].0, 'A', i) && named_words(regs)[16 + i].1 == regs.a@[i],
        named_words(regs)[32] == ("PC"@, regs.pc),
        named_words(regs)[33] == ("PSW"@, regs.psw),
        named_words(regs)[34] == ("PCXI"@, regs.pcxi),
        forall|index: int|
            0 <= index < 35 ==> #[trigger] named_words(regs)[index] == (
                core_name(index),
                regs.words()[index],
            ),
{
    reveal_strlit("PC");
    reveal_strlit("PSW");
    reveal_strlit("PCXI");
    lemma_numbered_spells('D', i);
    lemma_numbered_spells('A', i);
    assert(core_name(32) =~= "PC"@);
    assert(core_name(33) =~= "PSW"@);
    assert(core_name(34) =~= "PCXI"@);
}

} // verus!
