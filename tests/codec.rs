use std::cell::RefCell;
use tock_bootloader::decode::{feed, BootCommand};
use tockloader_proto::{Command, CommandDecoder, CommandEncoder};

fn encode(cmd: &Command) -> Vec<u8> {
    CommandEncoder::new(cmd).expect("encodable command").collect()
}

fn stream() -> Vec<u8> {
    let key = [1u8, 2, 3, 4, 5, 6, 7, 0xFC];
    let value = [0xFCu8, 9];
    let mut bytes = encode(&Command::Ping);
    bytes.extend(encode(&Command::ReadRange { address: 0x12FC_3456, length: 0xFC10 }));
    bytes.extend(encode(&Command::SetAttr { index: 3, key: &key, value: &value }));
    bytes.extend(encode(&Command::CrcIntFlash { address: 4096, length: 0xFCFC }));
    bytes.extend(encode(&Command::GetAttr { index: 3 }));
    bytes
}

#[test]
fn bytewise_decoding_equals_block_decoding() {
    let bytes = stream();
    let mut one = CommandDecoder::new();
    let mut bytewise = Vec::new();
    for &b in &bytes {
        if let Ok(Some(cmd)) = one.receive(b) {
            bytewise.push(format!("{:?}", cmd));
        }
    }
    let block = RefCell::new(Vec::new());
    let mut two = CommandDecoder::new();
    two.read(&bytes, |cmd| block.borrow_mut().push(format!("{:?}", cmd)))
        .expect("valid stream");
    assert_eq!(bytewise, block.into_inner());
    assert_eq!(bytewise.len(), 5);
}

#[test]
fn feed_reads_commands() {
    let bytes = stream();
    let mut d = CommandDecoder::new();
    let mut got = Vec::new();
    for &b in &bytes {
        if let Some(frame) = feed(&mut d, b) {
            got.push(frame.expect("valid frame"));
        }
    }
    assert_eq!(got.len(), 5);
    assert!(matches!(got[0], BootCommand::Ping));
    assert!(matches!(got[1], BootCommand::ReadRange { address: 0x12FC_3456, length: 0xFC10 }));
    match &got[2] {
        BootCommand::SetAttr { index, key, value } => {
            assert_eq!(*index, 3);
            assert_eq!(key, &vec![1u8, 2, 3, 4, 5, 6, 7, 0xFC]);
            assert_eq!(value, &vec![0xFCu8, 9]);
        }
        _ => panic!("expected an attribute"),
    }
    assert!(matches!(got[3], BootCommand::CrcIntFlash { address: 4096, length: 0xFCFC }));
    assert!(matches!(got[4], BootCommand::GetAttr { index: 3 }));
}

#[test]
fn feed_reports_bad_frame() {
    let mut d = CommandDecoder::new();
    assert!(feed(&mut d, 0xFC).is_none());
    assert!(matches!(feed(&mut d, 0x06), Some(Err(_))));
}
