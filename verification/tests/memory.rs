//! Tests of memory transfers.

use tricore_probe::memory::{Chunk, Transfer};

fn write_all(memory: &mut Vec<u8>, start: u32, data: &[u8]) -> Vec<Chunk> {
    let mut requests = Vec::new();
    let mut transfer = Transfer::new(start, data.len());
    while let Some(chunk) = transfer.next_chunk() {
        let bytes = transfer.payload(data);
        assert_eq!(bytes.len(), chunk.len);
        for (i, byte) in bytes.iter().enumerate() {
            memory[chunk.addr as usize + i] = *byte;
        }
        requests.push(chunk);
        transfer.advance();
    }
    requests
}

fn read_all(memory: &[u8], start: u32, data: &mut [u8]) -> Vec<Chunk> {
    let mut requests = Vec::new();
    let mut transfer = Transfer::new(start, data.len());
    while let Some(chunk) = transfer.next_chunk() {
        let from = chunk.addr as usize;
        transfer.store(data, &memory[from..from + chunk.len]);
        requests.push(chunk);
    }
    requests
}

#[test]
fn written_bytes_are_read_back() {
    let mut memory = vec![0xEE; 0x2000];
    let data: Vec<u8> = (0..0x901).map(|i| (i % 251) as u8).collect();
    let requests = write_all(&mut memory, 0x123, &data);
    let expected = vec![
        Chunk { addr: 0x123, len: 0x400 },
        Chunk { addr: 0x523, len: 0x400 },
        Chunk { addr: 0x923, len: 0x101 },
    ];
    assert_eq!(requests, expected);
    assert_eq!(memory[0x122], 0xEE);
    assert_eq!(memory[0x123..0x123 + 0x901], data[..]);
    assert_eq!(memory[0x123 + 0x901], 0xEE);

    let mut buffer = vec![0; 0x901];
    assert_eq!(read_all(&memory, 0x123, &mut buffer), expected);
    assert_eq!(buffer, data);
}

#[test]
fn empty_transfer_makes_no_request() {
    assert_eq!(Transfer::new(0x8000_0000, 0).next_chunk(), None);
}

#[test]
fn exact_chunk_is_one_request() {
    let mut transfer = Transfer::new(0x8000_0000, 0x400);
    assert_eq!(transfer.next_chunk(), Some(Chunk { addr: 0x8000_0000, len: 0x400 }));
    transfer.advance();
    assert_eq!(transfer.next_chunk(), None);
}

#[test]
fn one_byte_more_is_two_requests() {
    let mut transfer = Transfer::new(0, 0x401);
    transfer.advance();
    assert_eq!(transfer.next_chunk(), Some(Chunk { addr: 0x400, len: 1 }));
    transfer.advance();
    assert_eq!(transfer.next_chunk(), None);
}

#[test]
fn addresses_go_past_32_bits() {
    let mut transfer = Transfer::new(0xFFFF_FFFF, 0x500);
    assert_eq!(transfer.next_chunk(), Some(Chunk { addr: 0xFFFF_FFFF, len: 0x400 }));
    transfer.advance();
    assert_eq!(transfer.next_chunk(), Some(Chunk { addr: 0x1_0000_03FF, len: 0x100 }));
}
