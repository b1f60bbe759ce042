use tock_bootloader::boot::{Action, Bootloader, State, MIN_SERIAL_LEN};
use tock_bootloader::crc::Crc32Table;
use tock_bootloader::wire::{
    ESCAPE_CHAR, RES_BADARGS, RES_CRCIF, RES_GET_ATTR, RES_INFO, RES_INTERNAL_ERROR, RES_OK,
    RES_PONG, RES_READ_RANGE, RES_UNKNOWN,
};
use tockloader_proto::{Command, CommandEncoder};

const SERIAL_LEN: usize = 600;

/// A flash device and a serial peer driven by the bootloader's actions.
struct Rig {
    boot: Bootloader,
    flash: Vec<u8>,
    page_size: usize,
    sent: Vec<Vec<u8>>,
    reads: Vec<usize>,
    writes: Vec<usize>,
    erases: Vec<usize>,
    rx: Option<Vec<u8>>,
}

impl Rig {
    fn new(page_size: usize, pages: usize) -> Rig {
        let mut flash = vec![0u8; page_size * pages];
        for (i, b) in flash.iter_mut().enumerate() {
            *b = (i % 251) as u8;
        }
        let mut boot = Bootloader::new(vec![0u8; page_size], vec![0u8; SERIAL_LEN]);
        let first = boot.initialize();
        let mut rig = Rig {
            boot,
            flash,
            page_size,
            sent: Vec::new(),
            reads: Vec::new(),
            writes: Vec::new(),
            erases: Vec::new(),
            rx: None,
        };
        rig.run(first);
        rig
    }

    fn run(&mut self, first: Action) {
        let mut act = first;
        loop {
            act = match act {
                Action::Nothing => return,
                Action::Receive { buffer } => {
                    self.rx = Some(buffer);
                    return;
                }
                Action::Transmit { buffer, len } => {
                    self.sent.push(buffer[..len].to_vec());
                    self.boot.transmit_complete(buffer, true)
                }
                Action::ReadPage { page, mut buffer } => {
                    self.reads.push(page);
                    let start = page * self.page_size;
                    buffer.copy_from_slice(&self.flash[start..start + self.page_size]);
                    self.boot.read_complete(buffer)
                }
                Action::WritePage { page, buffer } => {
                    self.writes.push(page);
                    let start = page * self.page_size;
                    self.flash[start..start + self.page_size].copy_from_slice(&buffer);
                    self.boot.write_complete(buffer)
                }
                Action::ErasePage { page } => {
                    self.erases.push(page);
                    let start = page * self.page_size;
                    for b in &mut self.flash[start..start + self.page_size] {
                        *b = 0xFF;
                    }
                    self.boot.erase_complete()
                }
            };
        }
    }

    fn deliver(&mut self, bytes: &[u8]) {
        let mut buffer = self.rx.take().expect("the bootloader is listening");
        buffer[..bytes.len()].copy_from_slice(bytes);
        let act = self.boot.receive_complete(buffer, bytes.len(), true);
        self.run(act);
    }

    fn send(&mut self, cmd: &Command) {
        let bytes = encode(cmd);
        self.deliver(&bytes);
    }
}

fn encode(cmd: &Command) -> Vec<u8> {
    CommandEncoder::new(cmd).expect("encodable command").collect()
}

fn unescape(t: &[u8]) -> Vec<u8> {
    let mut out = Vec::new();
    let mut i = 0;
    while i < t.len() {
        if t[i] == ESCAPE_CHAR && i + 1 < t.len() && t[i + 1] == ESCAPE_CHAR {
            out.push(ESCAPE_CHAR);
            i += 2;
        } else {
            out.push(t[i]);
            i += 1;
        }
    }
    out
}

#[test]
fn ping_gets_pong() {
    let mut rig = Rig::new(512, 8);
    rig.send(&Command::Ping);
    assert_eq!(rig.sent, vec![vec![ESCAPE_CHAR, RES_PONG]]);
    assert!(rig.rx.is_some());
    assert_eq!(rig.boot.state(), State::Idle);
}

#[test]
fn read_range_over_two_pages() {
    let mut rig = Rig::new(8, 4);
    rig.send(&Command::ReadRange { address: 0, length: 10 });
    assert_eq!(rig.reads, vec![0, 1]);
    assert_eq!(rig.sent.len(), 2);
    assert_eq!(&rig.sent[0][..2], &[ESCAPE_CHAR, RES_READ_RANGE]);
    assert_ne!(rig.sent[1].get(..2), Some(&[ESCAPE_CHAR, RES_READ_RANGE][..]));
    let mut payload = unescape(&rig.sent[0][2..]);
    payload.extend(unescape(&rig.sent[1]));
    assert_eq!(payload.len(), 10);
    assert_eq!(payload, rig.flash[0..10].to_vec());
    assert_eq!(rig.boot.state(), State::Idle);
    assert!(rig.rx.is_some());
}

#[test]
fn read_range_escapes_payload() {
    let mut rig = Rig::new(16, 4);
    rig.flash[3] = ESCAPE_CHAR;
    rig.flash[20] = ESCAPE_CHAR;
    rig.send(&Command::ReadRange { address: 2, length: 20 });
    assert_eq!(rig.reads, vec![0, 1]);
    let mut wire = rig.sent[0][2..].to_vec();
    wire.extend_from_slice(&rig.sent[1]);
    assert_eq!(wire.len(), 22);
    assert_eq!(unescape(&wire), rig.flash[2..22].to_vec());
}

#[test]
fn write_page_of_wrong_size_is_refused() {
    let mut rig = Rig::new(8, 4);
    let before = rig.flash.clone();
    let data = [0x5Au8; 512];
    rig.send(&Command::WritePage { address: 0, data: &data });
    assert_eq!(rig.sent, vec![vec![ESCAPE_CHAR, RES_BADARGS]]);
    assert!(rig.writes.is_empty());
    assert_eq!(rig.flash, before);
    assert_eq!(rig.boot.state(), State::Idle);
}

#[test]
fn write_page_writes_flash() {
    let mut rig = Rig::new(512, 8);
    let data: Vec<u8> = (0..512).map(|i| (i * 7 % 256) as u8).collect();
    rig.send(&Command::WritePage { address: 1024, data: &data });
    assert_eq!(rig.writes, vec![2]);
    assert_eq!(rig.flash[1024..1536].to_vec(), data);
    assert_eq!(rig.sent, vec![vec![ESCAPE_CHAR, RES_OK]]);
}

#[test]
fn set_then_get_attribute() {
    let mut rig = Rig::new(512, 8);
    let key = [b'k', b'e', b'y', b'n', b'a', b'm', b'e', 0];
    let value = [1u8, 2, 3];
    rig.send(&Command::SetAttr { index: 5, key: &key, value: &value });
    assert_eq!(rig.reads, vec![3]);
    assert_eq!(rig.writes, vec![3]);
    assert_eq!(rig.sent, vec![vec![ESCAPE_CHAR, RES_OK]]);
    rig.send(&Command::GetAttr { index: 5 });
    assert_eq!(rig.sent.len(), 2);
    let resp = &rig.sent[1];
    assert_eq!(&resp[..2], &[ESCAPE_CHAR, RES_GET_ATTR]);
    let rec = unescape(&resp[2..]);
    assert_eq!(rec.len(), 64);
    assert_eq!(&rec[..8], &key);
    assert_eq!(rec[8], 3);
    assert_eq!(&rec[9..12], &value);
    assert!(rec[12..].iter().all(|&b| b == 0));
}

#[test]
fn erase_then_get_attribute() {
    let mut rig = Rig::new(512, 8);
    rig.send(&Command::ErasePage { address: 3 * 512 });
    assert_eq!(rig.erases, vec![3]);
    assert_eq!(rig.sent, vec![vec![ESCAPE_CHAR, RES_OK]]);
    rig.send(&Command::GetAttr { index: 2 });
    let resp = &rig.sent[1];
    assert_eq!(&resp[..2], &[ESCAPE_CHAR, RES_GET_ATTR]);
    let rec = unescape(&resp[2..]);
    assert_eq!(rec, vec![0xFFu8; 64]);
}

#[test]
fn get_attribute_escapes_record() {
    let mut rig = Rig::new(512, 8);
    let key = [ESCAPE_CHAR, 1, 2, 3, 4, 5, 6, ESCAPE_CHAR];
    let value = [ESCAPE_CHAR, ESCAPE_CHAR];
    rig.send(&Command::SetAttr { index: 9, key: &key, value: &value });
    assert_eq!(rig.writes, vec![4]);
    rig.send(&Command::GetAttr { index: 9 });
    let resp = &rig.sent[1];
    assert_eq!(resp.len(), 2 + 64 + 4);
    let rec = unescape(&resp[2..]);
    assert_eq!(rec, rig.flash[4 * 512 + 64..4 * 512 + 128].to_vec());
}

#[test]
fn set_attribute_with_long_value_is_refused() {
    let mut rig = Rig::new(512, 8);
    let key = [0u8; 8];
    let value = [7u8; 55];
    let mut bytes = encode(&Command::SetAttr { index: 1, key: &key, value: &value });
    // Lengthen the value by one byte past the limit: index, key, length, value.
    bytes[9] = 56;
    bytes.insert(10, 7);
    rig.deliver(&bytes);
    assert_eq!(rig.sent, vec![vec![ESCAPE_CHAR, RES_BADARGS]]);
    assert!(rig.writes.is_empty());
}

#[test]
fn attribute_outside_small_page_is_refused() {
    let mut rig = Rig::new(64, 8);
    rig.send(&Command::GetAttr { index: 1 });
    assert_eq!(rig.sent, vec![vec![ESCAPE_CHAR, RES_BADARGS]]);
    assert!(rig.reads.is_empty());
}

#[test]
fn crc_over_pages_matches_one_pass() {
    let mut rig = Rig::new(16, 8);
    rig.send(&Command::CrcIntFlash { address: 5, length: 40 });
    assert_eq!(rig.reads, vec![0, 1, 2]);
    let table = Crc32Table::new();
    let expect = table.checksum(&rig.flash[5..45].to_vec());
    let resp = &rig.sent[0];
    assert_eq!(&resp[..2], &[ESCAPE_CHAR, RES_CRCIF]);
    assert_eq!(unescape(&resp[2..]), expect.to_le_bytes().to_vec());
}

#[test]
fn crc_response_escapes_escape_bytes() {
    let table = Crc32Table::new();
    let mut found = false;
    for address in 0..400u32 {
        let mut rig = Rig::new(16, 32);
        let start = address as usize;
        let expect = table.checksum(&rig.flash[start..start + 3].to_vec());
        let le = expect.to_le_bytes();
        let doubled = le.iter().filter(|&&b| b == ESCAPE_CHAR).count();
        if doubled == 0 {
            continue;
        }
        found = true;
        rig.send(&Command::CrcIntFlash { address, length: 3 });
        let resp = &rig.sent[0];
        assert_eq!(resp.len(), 6 + doubled);
        assert_eq!(&resp[..2], &[ESCAPE_CHAR, RES_CRCIF]);
        assert_eq!(unescape(&resp[2..]), le.to_vec());
        break;
    }
    assert!(found);
}

#[test]
fn crc_check_value() {
    let table = Crc32Table::new();
    assert_eq!(table.checksum(&b"123456789".to_vec()), 0xCBF4_3926);
    assert_eq!(table.checksum(&Vec::new()), 0);
}

#[test]
fn crc_chunked_equals_whole() {
    let table = Crc32Table::new();
    let data: Vec<u8> = (0..100u32).map(|i| (i * 37 % 256) as u8).collect();
    let whole = table.checksum(&data);
    for split in [1usize, 7, 33, 99] {
        let mut c = table.update(0xFFFF_FFFF, &data, 0, split);
        c = table.update(c, &data, split, data.len() - split);
        assert_eq!(c ^ 0xFFFF_FFFF, whole);
    }
}

#[test]
fn crc_of_empty_range() {
    let mut rig = Rig::new(16, 2);
    rig.send(&Command::CrcIntFlash { address: 0, length: 0 });
    assert_eq!(rig.sent, vec![vec![ESCAPE_CHAR, RES_CRCIF, 0, 0, 0, 0]]);
}

#[test]
fn info_reports_version() {
    let mut rig = Rig::new(512, 4);
    let base = 2 * 512 + 14;
    rig.flash[base..base + 6].copy_from_slice(b"1.2.3\0");
    rig.send(&Command::Info);
    assert_eq!(rig.reads, vec![2]);
    let resp = &rig.sent[0];
    assert_eq!(resp.len(), 195);
    assert_eq!(&resp[..2], &[ESCAPE_CHAR, RES_INFO]);
    assert_eq!(&resp[2..7], b"1.2.3");
    assert!(resp[7..].iter().all(|&b| b == 0));
}

#[test]
fn info_version_is_at_most_eight_bytes() {
    let mut rig = Rig::new(512, 4);
    let base = 2 * 512 + 14;
    rig.flash[base..base + 10].copy_from_slice(b"abcdefghij");
    rig.send(&Command::Info);
    let resp = &rig.sent[0];
    assert_eq!(&resp[2..10], b"abcdefgh");
    assert!(resp[10..].iter().all(|&b| b == 0));
}

#[test]
fn info_version_keeps_high_bytes() {
    let mut rig = Rig::new(512, 4);
    let base = 2 * 512 + 14;
    rig.flash[base..base + 2].copy_from_slice(&[0x80, 0]);
    rig.send(&Command::Info);
    let resp = &rig.sent[0];
    assert_eq!(resp.len(), 195);
    assert_eq!(resp[2], 0x80);
    assert!(resp[3..].iter().all(|&b| b == 0));
}

#[test]
fn info_version_escapes_escape_byte() {
    let mut rig = Rig::new(512, 4);
    let base = 2 * 512 + 14;
    rig.flash[base..base + 5].copy_from_slice(&[b'v', b'2', ESCAPE_CHAR, b'x', 0]);
    rig.send(&Command::Info);
    let resp = &rig.sent[0];
    assert_eq!(resp.len(), 196);
    assert_eq!(&resp[..2], &[ESCAPE_CHAR, RES_INFO]);
    let payload = unescape(&resp[2..]);
    assert_eq!(payload.len(), 193);
    assert_eq!(&payload[..4], &[b'v', b'2', ESCAPE_CHAR, b'x']);
    assert!(payload[4..].iter().all(|&b| b == 0));
}

#[test]
fn command_refused_while_busy() {
    let mut boot = Bootloader::new(vec![0u8; 512], vec![0u8; SERIAL_LEN]);
    let buffer = match boot.initialize() {
        Action::Receive { buffer } => buffer,
        _ => panic!("expected to listen"),
    };
    let mut frame = encode(&Command::ErasePage { address: 512 });
    let mut rx = buffer;
    rx[..frame.len()].copy_from_slice(&frame);
    match boot.receive_complete(rx, frame.len(), true) {
        Action::ErasePage { page } => assert_eq!(page, 1),
        _ => panic!("expected an erase"),
    }
    assert_eq!(boot.state(), State::ErasePage);
    frame = encode(&Command::Ping);
    let mut other = vec![0u8; SERIAL_LEN];
    other[..frame.len()].copy_from_slice(&frame);
    assert!(matches!(boot.receive_complete(other, frame.len(), true), Action::Nothing));
    assert_eq!(boot.state(), State::ErasePage);
    match boot.erase_complete() {
        Action::Transmit { buffer, len } => {
            assert_eq!(len, 2);
            assert_eq!(&buffer[..2], &[ESCAPE_CHAR, RES_OK]);
        }
        _ => panic!("expected the OK response"),
    }
    assert_eq!(boot.state(), State::Idle);
}

#[test]
fn unserved_command_is_unknown() {
    let mut rig = Rig::new(512, 4);
    rig.send(&Command::Id);
    assert_eq!(rig.sent, vec![vec![ESCAPE_CHAR, RES_UNKNOWN]]);
}

#[test]
fn malformed_frame_is_internal_error() {
    let mut rig = Rig::new(512, 4);
    rig.deliver(&[0x01, ESCAPE_CHAR, 0x06]);
    assert_eq!(rig.sent, vec![vec![ESCAPE_CHAR, RES_INTERNAL_ERROR]]);
}

#[test]
fn reset_discards_partial_frame() {
    let mut rig = Rig::new(512, 4);
    rig.deliver(&[0x10, 0x20, 0x30]);
    assert!(rig.sent.is_empty());
    rig.send(&Command::Reset);
    assert!(rig.sent.is_empty());
    rig.send(&Command::GetAttr { index: 0 });
    assert_eq!(rig.reads, vec![3]);
    assert_eq!(&rig.sent[0][..2], &[ESCAPE_CHAR, RES_GET_ATTR]);
}

#[test]
fn receive_error_stays_silent() {
    let mut boot = Bootloader::new(vec![0u8; 512], vec![0u8; SERIAL_LEN]);
    let buffer = match boot.initialize() {
        Action::Receive { buffer } => buffer,
        _ => panic!("expected to listen"),
    };
    let act = boot.receive_complete(buffer, 2, false);
    assert!(matches!(act, Action::Nothing));
    assert!(matches!(boot.send_response(RES_PONG), Action::Transmit { len: 2, .. }));
}

#[test]
fn transmit_error_stays_silent() {
    let mut boot = Bootloader::new(vec![0u8; 512], vec![0u8; SERIAL_LEN]);
    let buffer = match boot.send_response(RES_OK) {
        Action::Transmit { buffer, len } => {
            assert_eq!(len, 2);
            assert_eq!(&buffer[..2], &[ESCAPE_CHAR, RES_OK]);
            buffer
        }
        _ => panic!("expected a transmission"),
    };
    assert!(matches!(boot.transmit_complete(buffer, false), Action::Nothing));
    assert_eq!(boot.page_size(), 512);
    assert!(MIN_SERIAL_LEN <= SERIAL_LEN);
}
