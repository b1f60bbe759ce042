//! The bootloader's protocol state machine. Every completion event of the
//! serial link or of the flash hands its buffer back, moves the machine to
//! its next state, and yields at most one device operation, which carries
//! the buffer it needs: a buffer is always owned by exactly one party.
use vstd::prelude::*;
use crate::crc::{crc_update, lemma_crc_concat, Crc32Table, CRC_SEED};
use crate::decode::{
    completes,
    decoder_next,
    ends_frame,
    DECODER_CAPACITY,
    escaping_of,
    feed,
    frame_reads,
    pending_of,
    BootCommand,
    DecodeError,
};
use crate::layout::{
    attr_offset,
    attr_page,
    attribute_offset,
    attribute_page,
    record,
    stage_record,
    lemma_version_len,
    version_len,
    version_run,
    INFO_PAGE,
    KEY_LEN,
    RECORD_LEN,
    VALUE_MAX,
    VERSION_MAX,
    VERSION_OFFSET,
};
use crate::wire::{
    copy_escaped,
    lemma_fit_le,
    escape_one,
    lemma_escaped_push,
    lemma_escape_round_trip,
    lemma_escaped_len,
    unescaped,
    lemma_fit_all,
    escaped,
    fit_count,
    ESCAPE_CHAR,
    RES_BADARGS,
    RES_CRCIF,
    RES_GET_ATTR,
    RES_INFO,
    RES_INTERNAL_ERROR,
    RES_OK,
    RES_PONG,
    RES_READ_RANGE,
    RES_UNKNOWN,
};

verus! {

/// Length of the info payload: the version field and its zero padding.
pub const INFO_PAYLOAD_LEN: usize = 193;

/// Smallest serial buffer the bootloader can work with.
pub const MIN_SERIAL_LEN: usize = 203;

/// Idle time in milliseconds after which a partial reception is delivered.
pub const RECEIVE_TIMEOUT_MS: u32 = 250;

/// The operation in progress, with the data that travels with it.
#[allow(inconsistent_fields)]
#[derive(Clone, Copy, Debug, PartialEq, Eq, Structural)]
pub enum State {
    Idle,
    Info,
    ErasePage,
    GetAttribute { index: u8 },
    SetAttribute { index: u8 },
    WriteFlashPage,
    ReadRange { address: u32, length: u16, remaining_length: u16 },
    Crc { address: u32, remaining_length: u32, crc: u32 },
}

/// The one device operation that an event asks for. Each buffer moves with
/// the operation and comes back with its completion.
pub enum Action {
    Nothing,
    /// Send the first `len` bytes of `buffer`.
    Transmit { buffer: Vec<u8>, len: usize },
    /// Listen for the next frame into `buffer`.
    Receive { buffer: Vec<u8> },
    /// Read flash page `page` into `buffer`.
    ReadPage { page: usize, buffer: Vec<u8> },
    /// Write `buffer` to flash page `page`.
    WritePage { page: usize, buffer: Vec<u8> },
    /// Erase flash page `page`.
    ErasePage { page: usize },
}

/// What an `Action` stands for.
pub enum Act {
    Nothing,
    Transmit { data: Seq<u8>, len: nat },
    Receive { data: Seq<u8> },
    ReadPage { page: nat, data: Seq<u8> },
    WritePage { page: nat, data: Seq<u8> },
    ErasePage { page: nat },
}

impl Action {
    pub open spec fn view(&self) -> Act {
        match self {
            Action::Nothing => Act::Nothing,
            Action::Transmit { buffer, len } => Act::Transmit { data: buffer@, len: *len as nat },
            Action::Receive { buffer } => Act::Receive { data: buffer@ },
            Action::ReadPage { page, buffer } => Act::ReadPage {
                page: *page as nat,
                data: buffer@,
            },
            Action::WritePage { page, buffer } => Act::WritePage {
                page: *page as nat,
                data: buffer@,
            },
            Action::ErasePage { page } => Act::ErasePage { page: *page as nat },
        }
    }
}

/// The bootloader as the contracts see it: its state and which of its two
/// buffers it holds.
pub struct BootView {
    pub state: State,
    pub serial: Option<Seq<u8>>,
    pub page: Option<Seq<u8>>,
    pub page_size: nat,
}

pub open spec fn mk(state: State, serial: Option<Seq<u8>>, page: Option<Seq<u8>>, ps: nat) -> BootView {
    BootView { state, serial, page, page_size: ps }
}

/// Attribute slot `index` lies within one page.
pub open spec fn slot_fits(index: u8, ps: nat) -> bool {
    attr_offset(index) + RECORD_LEN <= ps
}

pub open spec fn view_wf(v: BootView) -> bool {
    &&& v.page_size > 0
    &&& v.page matches Some(p) ==> p.len() == v.page_size
    &&& v.serial matches Some(s) ==> s.len() >= MIN_SERIAL_LEN
    &&& v.state matches State::GetAttribute { index } ==> slot_fits(index, v.page_size)
    &&& v.state matches State::SetAttribute { index } ==> slot_fits(index, v.page_size)
}

/// A two-byte response frame written over the start of `buf`.
pub open spec fn response(buf: Seq<u8>, code: u8) -> Seq<u8> {
    buf.update(0, ESCAPE_CHAR).update(1, code)
}

/// Hands the page buffer to a flash read of `page_no`, if it is held.
pub open spec fn read_into(v: BootView, page_no: nat) -> (BootView, Act) {
    match v.page {
        Some(p) => (mk(v.state, v.serial, None, v.page_size), Act::ReadPage { page: page_no, data: p }),
        None => (v, Act::Nothing),
    }
}

/// Refuses a command for its arguments.
pub open spec fn bad_args(v: BootView, buf: Seq<u8>) -> (BootView, Act) {
    (mk(State::Idle, None, v.page, v.page_size), Act::Transmit { data: response(buf, RES_BADARGS), len: 2 })
}

/// The response to a command that needs no flash work.
pub open spec fn reply(v: BootView, buf: Seq<u8>, code: u8) -> (BootView, Act) {
    (mk(v.state, None, v.page, v.page_size), Act::Transmit { data: response(buf, code), len: 2 })
}

/// The step taken on a decoded frame, received into `buf`.
pub open spec fn command_step(v: BootView, buf: Seq<u8>, f: Result<BootCommand, DecodeError>) -> (BootView, Act) {
    let ps = v.page_size;
    if !(v.state is Idle) {
        (mk(v.state, Some(buf), v.page, ps), Act::Nothing)
    } else {
    match f {
        Err(_) => reply(v, buf, RES_INTERNAL_ERROR),
        Ok(BootCommand::Ping) => reply(v, buf, RES_PONG),
        Ok(BootCommand::Reset) => (mk(v.state, None, v.page, ps), Act::Receive { data: buf }),
        Ok(BootCommand::Info) => read_into(mk(State::Info, Some(buf), v.page, ps), INFO_PAGE as nat),
        Ok(BootCommand::ReadRange { address, length }) => read_into(
            mk(State::ReadRange { address, length, remaining_length: length }, Some(buf), v.page, ps),
            address as nat / ps,
        ),
        Ok(BootCommand::WritePage { address, data }) => match v.page {
            None => (mk(v.state, Some(buf), None, ps), Act::Nothing),
            Some(p) => if data@.len() != ps {
                bad_args(v, buf)
            } else {
                (mk(State::WriteFlashPage, Some(buf), None, ps), Act::WritePage {
                    page: address as nat / ps,
                    data: data@,
                })
            },
        },
        Ok(BootCommand::ErasePage { address }) => (mk(State::ErasePage, Some(buf), v.page, ps), Act::ErasePage {
            page: address as nat / ps,
        }),
        Ok(BootCommand::CrcIntFlash { address, length }) => read_into(
            mk(State::Crc { address, remaining_length: length, crc: CRC_SEED }, Some(buf), v.page, ps),
            address as nat / ps,
        ),
        Ok(BootCommand::GetAttr { index }) => if !slot_fits(index, ps) {
            bad_args(v, buf)
        } else {
            read_into(mk(State::GetAttribute { index }, Some(buf), v.page, ps), attr_page(index))
        },
        Ok(BootCommand::SetAttr { index, key, value }) => if key@.len() != KEY_LEN
            || value@.len() > VALUE_MAX || !slot_fits(index, ps) {
            bad_args(v, buf)
        } else {
            read_into(
                mk(State::SetAttribute { index }, Some(record(key@, value@) + buf.skip(RECORD_LEN as int)), v.page, ps),
                attr_page(index),
            )
        },
        Ok(BootCommand::Unknown) => reply(v, buf, RES_UNKNOWN),
    }
    }
}

/// Feeds `bytes[i..]` to a decoder holding `p` in escape state `esc`: the
/// index of the byte that completes the first frame, with the decoder's
/// state just before it; or -1 with the decoder's state after all bytes.
pub open spec fn scan(p: Seq<u8>, esc: bool, bytes: Seq<u8>, i: nat) -> (int, Seq<u8>, bool)
    decreases bytes.len() - i,
{
    if i >= bytes.len() {
        (-1, p, esc)
    } else if completes(esc, bytes[i as int]) {
        (i as int, p, esc)
    } else {
        scan(
            decoder_next(p, esc, bytes[i as int]).0,
            decoder_next(p, esc, bytes[i as int]).1,
            bytes,
            i + 1,
        )
    }
}

/// The step taken when a transmission completes.
pub open spec fn transmit_step(v: BootView, buf: Seq<u8>, ok: bool) -> (BootView, Act) {
    if !ok {
        (mk(v.state, Some(buf), v.page, v.page_size), Act::Nothing)
    } else {
        match v.state {
            State::ReadRange { address, remaining_length, .. } => if remaining_length == 0 {
                (mk(State::Idle, None, v.page, v.page_size), Act::Receive { data: buf })
            } else {
                read_into(mk(v.state, Some(buf), v.page, v.page_size), address as nat / v.page_size)
            },
            _ => (v, Act::Receive { data: buf }),
        }
    }
}

/// The info response: header, then the zero-padded version string,
/// escaped.
pub open spec fn info_response(buf: Seq<u8>, page: Seq<u8>) -> Seq<u8> {
    let e = escaped(info_payload(page));
    seq![ESCAPE_CHAR, RES_INFO] + e + buf.skip(2 + e.len() as int)
}

/// The info payload: the version string, zero-padded to a fixed length.
pub open spec fn info_payload(page: Seq<u8>) -> Seq<u8> {
    Seq::new(
        INFO_PAYLOAD_LEN as nat,
        |j: int| if j < version_len(page) { page[VERSION_OFFSET + j] } else { 0u8 },
    )
}

/// The attribute response: header, then the escaped 64-byte slot.
pub open spec fn attr_response(buf: Seq<u8>, page: Seq<u8>, index: u8) -> Seq<u8> {
    let rec = escaped(page.subrange(attr_offset(index) as int, attr_offset(index) + RECORD_LEN));
    seq![ESCAPE_CHAR, RES_GET_ATTR] + rec + buf.skip(2 + rec.len() as int)
}

/// The checksum response: header, then the CRC in little-endian order,
/// escaped.
pub open spec fn crc_response(buf: Seq<u8>, x: u32) -> Seq<u8> {
    let e = escaped(le_bytes(x));
    seq![ESCAPE_CHAR, RES_CRCIF] + e + buf.skip(2 + e.len() as int)
}

/// The four bytes of `x`, least significant first.
pub open spec fn le_bytes(x: u32) -> Seq<u8> {
    seq![
        (x & 0xFF) as u8,
        ((x >> 8u32) & 0xFF) as u8,
        ((x >> 16u32) & 0xFF) as u8,
        ((x >> 24u32) & 0xFF) as u8,
    ]
}

/// `page` with the slot of `index` replaced by `rec`.
pub open spec fn overlay(page: Seq<u8>, index: u8, rec: Seq<u8>) -> Seq<u8> {
    page.take(attr_offset(index) as int) + rec + page.skip(attr_offset(index) + RECORD_LEN)
}

pub open spec fn min(a: int, b: int) -> int {
    if a <= b { a } else { b }
}

/// The bytes of the page that one step of a streaming read or checksum at
/// `address` covers, with `remaining` bytes still to go.
pub open spec fn chunk(page: Seq<u8>, address: u32, remaining: int) -> Seq<u8> {
    let pi = address as int % (page.len() as int);
    page.subrange(pi, pi + min(page.len() - pi, remaining))
}

/// The step of a range read on a page that was read.
pub open spec fn read_range_step(v: BootView, page: Seq<u8>, address: u32, length: u16, remaining: u16) -> (BootView, Act) {
    match v.serial {
        None => (mk(v.state, None, Some(page), v.page_size), Act::Nothing),
        Some(s) => {
            let first = length == remaining;
            let hdr: int = if first { 2 } else { 0 };
            let s1 = if first { response(s, RES_READ_RANGE) } else { s };
            let src = chunk(page, address, remaining as int);
            let k = fit_count(src, hdr, s.len() as int);
            let out = escaped(src.take(k as int));
            (mk(State::ReadRange {
                address: ((address + k) % 0x1_0000_0000) as u32,
                length,
                remaining_length: (remaining - k) as u16,
            }, None, Some(page), v.page_size), Act::Transmit {
                data: s1.take(hdr) + out + s1.skip(hdr + out.len()),
                len: (hdr + out.len()) as nat,
            })
        },
    }
}

/// The step of a checksum on a page that was read.
pub open spec fn crc_step(v: BootView, page: Seq<u8>, address: u32, remaining: u32, crc: u32) -> (BootView, Act) {
    let src = chunk(page, address, remaining as int);
    let c = crc_update(crc, src);
    let a = ((address + src.len()) % 0x1_0000_0000) as u32;
    let r = (remaining - src.len()) as u32;
    if r == 0 {
        match v.serial {
            Some(s) => (mk(State::Idle, None, Some(page), v.page_size), Act::Transmit {
                data: crc_response(s, c ^ 0xFFFF_FFFF),
                len: 2 + escaped(le_bytes(c ^ 0xFFFF_FFFF)).len(),
            }),
            None => (mk(State::Idle, None, Some(page), v.page_size), Act::Nothing),
        }
    } else {
        (mk(State::Crc { address: a, remaining_length: r, crc: c }, v.serial, v.page, v.page_size), Act::ReadPage {
            page: a as nat / v.page_size,
            data: page,
        })
    }
}

/// The step taken when a flash read completes into `page`.
pub open spec fn read_step(v: BootView, page: Seq<u8>) -> (BootView, Act) {
    let ps = v.page_size;
    match v.state {
        State::Info => match v.serial {
            Some(s) => (mk(State::Idle, None, Some(page), ps), Act::Transmit {
                data: info_response(s, page),
                len: 2 + escaped(info_payload(page)).len(),
            }),
            None => (mk(State::Idle, None, Some(page), ps), Act::Nothing),
        },
        State::GetAttribute { index } => match v.serial {
            Some(s) => (mk(State::Idle, None, Some(page), ps), Act::Transmit {
                data: attr_response(s, page, index),
                len: 2 + escaped(page.subrange(attr_offset(index) as int, attr_offset(index) + RECORD_LEN)).len(),
            }),
            None => (mk(State::Idle, None, Some(page), ps), Act::Nothing),
        },
        State::SetAttribute { index } => match v.serial {
            Some(s) => (mk(v.state, v.serial, v.page, ps), Act::WritePage {
                page: attr_page(index),
                data: overlay(page, index, s.take(RECORD_LEN as int)),
            }),
            None => (mk(v.state, None, Some(page), ps), Act::Nothing),
        },
        State::ReadRange { address, length, remaining_length } => read_range_step(
            v,
            page,
            address,
            length,
            remaining_length,
        ),
        State::Crc { address, remaining_length, crc } => crc_step(v, page, address, remaining_length, crc),
        _ => (mk(v.state, v.serial, Some(page), ps), Act::Nothing),
    }
}

/// Starts listening, if the serial buffer is held.
pub open spec fn listen(v: BootView) -> (BootView, Act) {
    match v.serial {
        Some(s) => (mk(v.state, None, v.page, v.page_size), Act::Receive { data: s }),
        None => (v, Act::Nothing),
    }
}

/// Sends a two-byte response, if the serial buffer is held.
pub open spec fn send_step(v: BootView, code: u8) -> (BootView, Act) {
    match v.serial {
        Some(s) => (mk(v.state, None, v.page, v.page_size), Act::Transmit { data: response(s, code), len: 2 }),
        None => (v, Act::Nothing),
    }
}

/// Answers with `code` if the serial buffer is held, else listens again.
pub open spec fn finish(v: BootView, page: Option<Seq<u8>>, done: bool, code: u8) -> (BootView, Act) {
    let st = if done { State::Idle } else { v.state };
    match v.serial {
        Some(s) => if done {
            (mk(st, None, page, v.page_size), Act::Transmit { data: response(s, code), len: 2 })
        } else {
            (mk(st, None, page, v.page_size), Act::Receive { data: s })
        },
        None => (mk(st, None, page, v.page_size), Act::Nothing),
    }
}

/// The step taken when a flash write completes.
pub open spec fn write_step(v: BootView, page: Seq<u8>) -> (BootView, Act) {
    finish(v, Some(page), v.state is WriteFlashPage || v.state is SetAttribute, RES_OK)
}

/// The step taken when a flash erase completes.
pub open spec fn erase_step(v: BootView) -> (BootView, Act) {
    finish(v, v.page, v.state is ErasePage, RES_OK)
}

/// A page write whose data is not exactly one page long never reaches the
/// flash; while the bootloader holds its page buffer it answers BadArgs,
/// returns to idle, and once that answer is sent listens again.
pub proof fn lemma_write_page_wrong_size(v: BootView, buf: Seq<u8>, address: u32, data: Vec<u8>)
    requires
        view_wf(v),
        v.state == State::Idle,
        data@.len() != v.page_size,
    ensures
        !(command_step(v, buf, Ok(BootCommand::WritePage { address, data })).1 is WritePage),
        v.page is Some ==> command_step(v, buf, Ok(BootCommand::WritePage { address, data })) == (
        mk(State::Idle, None, v.page, v.page_size), Act::Transmit { data: response(buf, RES_BADARGS), len: 2 }),
        v.page is Some ==> transmit_step(mk(State::Idle, None, v.page, v.page_size), response(buf, RES_BADARGS), true) == (
        mk(State::Idle, None, v.page, v.page_size), Act::Receive { data: response(buf, RES_BADARGS) }),
{
}

/// An attribute record staged by a set and written into its page is what a
/// later get of the same slot sends back, escaped.
pub proof fn lemma_attr_round_trip(page: Seq<u8>, index: u8, key: Seq<u8>, value: Seq<u8>)
    requires
        key.len() == KEY_LEN,
        value.len() <= VALUE_MAX,
        attr_offset(index) + RECORD_LEN <= page.len(),
    ensures
        overlay(page, index, record(key, value)).subrange(
            attr_offset(index) as int,
            attr_offset(index) + RECORD_LEN,
        ) == record(key, value),
        overlay(page, index, record(key, value)).len() == page.len(),
{
    assert(overlay(page, index, record(key, value)).subrange(
        attr_offset(index) as int,
        attr_offset(index) + RECORD_LEN,
    ) =~= record(key, value));
}

/// Payload bytes that hold no escape byte are stored one for one.
pub proof fn lemma_scan_plain(p: Seq<u8>, bytes: Seq<u8>, i: nat, j: nat)
    requires
        i <= j < bytes.len(),
        p.len() + (j - i) <= DECODER_CAPACITY,
        forall|k: int| i <= k < j ==> bytes[k] != ESCAPE_CHAR,
    ensures
        scan(p, false, bytes, i) == scan(p + bytes.subrange(i as int, j as int), false, bytes, j),
    decreases j - i,
{
    if i == j {
        assert(p + bytes.subrange(i as int, j as int) =~= p);
    } else {
        let q = p.push(bytes[i as int]);
        lemma_scan_plain(q, bytes, i + 1, j);
        assert(q + bytes.subrange(i + 1 as int, j as int) =~= p + bytes.subrange(i as int, j as int));
    }
}

/// A reset leaves the decoder holding nothing, whatever partial frame came
/// before. From there (outside escape state), a frame of payload bytes without escape bytes followed by an escape byte
/// and a command code is read from exactly those payload bytes.
pub proof fn lemma_frame_after_reset(data: Seq<u8>, code: u8, rest: Seq<u8>)
    requires
        data.len() <= DECODER_CAPACITY,
        forall|k: int| 0 <= k < data.len() ==> data[k] != ESCAPE_CHAR,
        ends_frame(code),
    ensures
        ({
            let bytes = data + seq![ESCAPE_CHAR, code] + rest;
            scan(Seq::empty(), false, bytes, 0) == (data.len() + 1 as int, data, true)
        }),
{
    let bytes = data + seq![ESCAPE_CHAR, code] + rest;
    let n = data.len();
    assert forall|k: int| 0 <= k < n implies bytes[k] != ESCAPE_CHAR by {
        assert(bytes[k] == data[k]);
    }
    lemma_scan_plain(Seq::empty(), bytes, 0, n);
    assert(Seq::<u8>::empty() + bytes.subrange(0, n as int) =~= data);
    assert(bytes[n as int] == ESCAPE_CHAR);
    assert(bytes[n + 1 as int] == code);
    assert(decoder_next(data, false, ESCAPE_CHAR) == (data, true));
    assert(scan(data, false, bytes, n) == scan(data, true, bytes, n + 1));
}

/// A range read of 10 bytes from address 0 with 8-byte pages reads page 0,
/// sends it after the header, reads page 1, sends its first two bytes with
/// no header, and then listens again in the idle state: the payloads, read
/// back, are the 10 bytes of flash.
pub proof fn lemma_read_range_two_pages(v: BootView, buf: Seq<u8>, pg0: Seq<u8>, pg1: Seq<u8>)
    requires
        view_wf(v),
        v.state == State::Idle,
        v.page_size == 8,
        v.page is Some,
        buf.len() >= MIN_SERIAL_LEN,
        pg0.len() == 8,
        pg1.len() == 8,
    ensures
        ({
            let s1 = command_step(v, buf, Ok(BootCommand::ReadRange { address: 0, length: 10 }));
            let s2 = read_step(s1.0, pg0);
            let s3 = transmit_step(s2.0, s2.1->Transmit_data, true);
            let s4 = read_step(s3.0, pg1);
            let s5 = transmit_step(s4.0, s4.1->Transmit_data, true);
            &&& s1.1 == Act::ReadPage { page: 0, data: v.page->0 }
            &&& s2.1 is Transmit
            &&& s2.1->Transmit_data.take(2) == seq![ESCAPE_CHAR, RES_READ_RANGE]
            &&& unescaped(s2.1->Transmit_data.subrange(2, s2.1->Transmit_len as int)) == pg0
            &&& s3.1 == Act::ReadPage { page: 1, data: pg0 }
            &&& s4.1 is Transmit
            &&& unescaped(s4.1->Transmit_data.take(s4.1->Transmit_len as int)) == pg1.take(2)
            &&& s5.1 == Act::Receive { data: s4.1->Transmit_data }
            &&& s5.0.state == State::Idle
        }),
{
    let s1 = command_step(v, buf, Ok(BootCommand::ReadRange { address: 0, length: 10 }));
    let src0 = chunk(pg0, 0, 10);
    assert(src0 =~= pg0);
    lemma_fit_all(pg0, 2, buf.len() as int);
    assert(pg0.take(8) =~= pg0);
    lemma_escaped_len(pg0);
    lemma_escape_round_trip(pg0);
    let s2 = read_step(s1.0, pg0);
    let out0 = escaped(pg0);
    let d2 = s2.1->Transmit_data;
    assert(d2.subrange(2, 2 + out0.len() as int) =~= out0);
    assert(d2.take(2) =~= seq![ESCAPE_CHAR, RES_READ_RANGE]);
    assert(s2.0.state == State::ReadRange { address: 8, length: 10, remaining_length: 2 });
    let s3 = transmit_step(s2.0, d2, true);
    let src1 = chunk(pg1, 8, 2);
    assert(src1 =~= pg1.take(2));
    lemma_fit_all(src1, 0, d2.len() as int);
    assert(src1.take(2) =~= src1);
    lemma_escaped_len(src1);
    lemma_escape_round_trip(src1);
    let s4 = read_step(s3.0, pg1);
    let out1 = escaped(src1);
    assert(s4.1->Transmit_data.take(s4.1->Transmit_len as int) =~= out1);
    assert(s4.0.state == State::ReadRange { address: 10, length: 10, remaining_length: 0 });
}

/// One step of a checksum run keeps the total: when the page read is the
/// flash page holding `address`, the running CRC folded over the bytes
/// still to go is the same before and after the step, whatever the page
/// size. At the last step the response carries the CRC of the whole range,
/// so a run started from the seed sends the CRC-32 of the range.
pub proof fn lemma_crc_step_keeps_total(v: BootView, flash: Seq<u8>, address: u32, remaining: u32, crc: u32)
    requires
        view_wf(v),
        v.state == (State::Crc { address, remaining_length: remaining, crc }),
        address + remaining < 0x1_0000_0000,
        address + remaining <= flash.len(),
        (address as int / v.page_size as int + 1) * v.page_size <= flash.len(),
    ensures
        ({
            let ps = v.page_size as int;
            let base = (address as int / ps) * ps;
            let pg = flash.subrange(base, base + ps);
            let total = crc_update(crc, flash.subrange(address as int, address + remaining));
            let s = crc_step(v, pg, address, remaining, crc);
            &&& s.0.state matches State::Crc { address: a, remaining_length: r, crc: c } ==> {
                &&& s.1 == Act::ReadPage { page: a as nat / v.page_size, data: pg }
                &&& a + r == address + remaining
                &&& crc_update(c, flash.subrange(a as int, a + r)) == total
            }
            &&& !(s.0.state is Crc) ==> {
                &&& s.0.state == State::Idle
                &&& v.serial matches Some(b) ==> s.1 == Act::Transmit {
                    data: crc_response(b, total ^ 0xFFFF_FFFF),
                    len: 2 + escaped(le_bytes(total ^ 0xFFFF_FFFF)).len(),
                }
            }
        }),
{
    let ps = v.page_size as int;
    let a = address as int;
    let base = (a / ps) * ps;
    let pg = flash.subrange(base, base + ps);
    assert(a == base + a % ps) by (nonlinear_arith)
        requires
            ps > 0,
            base == (a / ps) * ps,
    ;
    assert(0 <= a % ps < ps) by (nonlinear_arith)
        requires
            ps > 0,
    ;
    assert(base >= 0 && base + ps == (a / ps + 1) * ps) by (nonlinear_arith)
        requires
            ps > 0,
            a >= 0,
            base == (a / ps) * ps,
    ;
    assert(pg.len() == ps);
    assert forall|k: int| 0 <= k < ps implies pg[k] == flash[base + k] by {}
    let pi = a % (pg.len() as int);
    let n = min(pg.len() - pi, remaining as int);
    let src = chunk(pg, address, remaining as int);
    assert(pi == a % ps);
    assert(0 <= n <= remaining);
    assert forall|k: int| 0 <= k < n implies src[k] == flash[a + k] by {
        assert(src[k] == pg[pi + k]);
    }
    assert(src =~= flash.subrange(a, a + n));
    lemma_crc_concat(crc, flash.subrange(a, a + n), flash.subrange(a + n, a + remaining));
    assert(flash.subrange(a, a + n) + flash.subrange(a + n, a + remaining) =~= flash.subrange(
        a,
        a + remaining,
    ));
    if remaining - n == 0 {
        assert(flash.subrange(a, a + n) =~= flash.subrange(a, a + remaining));
    }
}

/// Setting attribute `index` and then getting it sends back its record: the
/// set reads the slot's page, writes it back with the record in the slot,
/// answers OK and listens again; the get then reads that page and sends the
/// record, escaped, after its header.
pub proof fn lemma_set_then_get(v: BootView, buf: Seq<u8>, pg: Seq<u8>, index: u8, key: Vec<u8>, value: Vec<u8>)
    requires
        view_wf(v),
        v.state == State::Idle,
        v.page is Some,
        buf.len() >= MIN_SERIAL_LEN,
        pg.len() == v.page_size,
        key@.len() == KEY_LEN,
        value@.len() <= VALUE_MAX,
        slot_fits(index, v.page_size),
    ensures
        ({
            let s1 = command_step(v, buf, Ok(BootCommand::SetAttr { index, key, value }));
            let s2 = read_step(s1.0, pg);
            let written = s2.1->WritePage_data;
            let s3 = write_step(s2.0, written);
            let s4 = transmit_step(s3.0, s3.1->Transmit_data, true);
            let s5 = command_step(s4.0, s4.1->Receive_data, Ok(BootCommand::GetAttr { index }));
            let s6 = read_step(s5.0, written);
            &&& s1.1 == Act::ReadPage { page: attr_page(index), data: v.page->0 }
            &&& s2.1 == Act::WritePage { page: attr_page(index), data: written }
            &&& s3.1 is Transmit
            &&& s3.1->Transmit_data.take(2) == seq![ESCAPE_CHAR, RES_OK]
            &&& s4.1 is Receive
            &&& s4.0.state == State::Idle
            &&& s5.1 == Act::ReadPage { page: attr_page(index), data: written }
            &&& s6.1 is Transmit
            &&& s6.1->Transmit_data.take(2) == seq![ESCAPE_CHAR, RES_GET_ATTR]
            &&& unescaped(s6.1->Transmit_data.subrange(2, s6.1->Transmit_len as int)) == record(
                key@,
                value@,
            )
        }),
{
    let rec = record(key@, value@);
    let staged = rec + buf.skip(RECORD_LEN as int);
    assert(staged.take(RECORD_LEN as int) =~= rec);
    let written = overlay(pg, index, rec);
    lemma_attr_round_trip(pg, index, key@, value@);
    let slot = written.subrange(attr_offset(index) as int, attr_offset(index) + RECORD_LEN);
    lemma_escaped_len(slot);
    lemma_escape_round_trip(slot);
    let s1 = command_step(v, buf, Ok(BootCommand::SetAttr { index, key, value }));
    assert(s1.0.serial == Some(staged));
    assert(s1.1 == Act::ReadPage { page: attr_page(index), data: v.page->0 });
    let s2 = read_step(s1.0, pg);
    assert(s2.1 == Act::WritePage { page: attr_page(index), data: written });
    let s3 = write_step(s2.0, written);
    assert(s3.1 is Transmit);
    assert(s3.1->Transmit_data.take(2) =~= seq![ESCAPE_CHAR, RES_OK]);
    let s4 = transmit_step(s3.0, s3.1->Transmit_data, true);
    let s5 = command_step(s4.0, s4.1->Receive_data, Ok(BootCommand::GetAttr { index }));
    assert(s4.1 is Receive);
    assert(s4.0.state == State::Idle);
    assert(s5.0.state == State::GetAttribute { index });
    assert(s5.1 == Act::ReadPage { page: attr_page(index), data: written });
    let s6 = read_step(s5.0, written);
    assert(s6.1 is Transmit);
    let d = s6.1->Transmit_data;
    assert(d.take(2) =~= seq![ESCAPE_CHAR, RES_GET_ATTR]);
    assert(d.subrange(2, 2 + escaped(slot).len() as int) =~= escaped(slot));
}

/// Erasing a page and then getting an attribute in it sends back a record
/// of the erase value: the erase answers OK and listens again; the get reads
/// the erased page and sends its slot, escaped, after its header.
pub proof fn lemma_erase_then_get(v: BootView, buf: Seq<u8>, address: u32, index: u8, erased: u8)
    requires
        view_wf(v),
        v.state == State::Idle,
        v.page is Some,
        buf.len() >= MIN_SERIAL_LEN,
        slot_fits(index, v.page_size),
        address as nat / v.page_size == attr_page(index),
    ensures
        ({
            let page = Seq::new(v.page_size, |k: int| erased);
            let s1 = command_step(v, buf, Ok(BootCommand::ErasePage { address }));
            let s2 = erase_step(s1.0);
            let s3 = transmit_step(s2.0, s2.1->Transmit_data, true);
            let s4 = command_step(s3.0, s3.1->Receive_data, Ok(BootCommand::GetAttr { index }));
            let s5 = read_step(s4.0, page);
            &&& s1.1 == Act::ErasePage { page: attr_page(index) }
            &&& s2.1 is Transmit
            &&& s2.1->Transmit_data.take(2) == seq![ESCAPE_CHAR, RES_OK]
            &&& s3.1 is Receive
            &&& s3.0.state == State::Idle
            &&& s4.1 is ReadPage
            &&& s4.1->ReadPage_page == attr_page(index)
            &&& s5.1 is Transmit
            &&& s5.1->Transmit_data.take(2) == seq![ESCAPE_CHAR, RES_GET_ATTR]
            &&& unescaped(s5.1->Transmit_data.subrange(2, s5.1->Transmit_len as int)) == Seq::new(
                RECORD_LEN as nat,
                |k: int| erased,
            )
        }),
{
    let page = Seq::new(v.page_size, |k: int| erased);
    let slot = page.subrange(attr_offset(index) as int, attr_offset(index) + RECORD_LEN);
    assert(slot =~= Seq::new(RECORD_LEN as nat, |k: int| erased));
    lemma_escaped_len(slot);
    lemma_escape_round_trip(slot);
    let s1 = command_step(v, buf, Ok(BootCommand::ErasePage { address }));
    let s2 = erase_step(s1.0);
    assert(s2.1->Transmit_data.take(2) =~= seq![ESCAPE_CHAR, RES_OK]);
    let s3 = transmit_step(s2.0, s2.1->Transmit_data, true);
    let s4 = command_step(s3.0, s3.1->Receive_data, Ok(BootCommand::GetAttr { index }));
    assert(s4.0.state == State::GetAttribute { index });
    let s5 = read_step(s4.0, page);
    let d = s5.1->Transmit_data;
    assert(d.take(2) =~= seq![ESCAPE_CHAR, RES_GET_ATTR]);
    assert(d.subrange(2, 2 + escaped(slot).len() as int) =~= escaped(slot));
}

/// Each chunk of a range read reads back as the page bytes it consumed: the
/// header comes only with the first chunk, the escaped bytes after it
/// unescape to the next `n` bytes of the range, and the address and the
/// remaining length move by those `n` source bytes.
pub proof fn lemma_read_range_chunk(v: BootView, page: Seq<u8>, address: u32, length: u16, remaining: u16)
    requires
        view_wf(v),
        v.serial is Some,
        page.len() == v.page_size,
        address + remaining < 0x1_0000_0000,
    ensures
        ({
            let s = read_range_step(v, page, address, length, remaining);
            let h: int = if length == remaining { 2 } else { 0 };
            let d = s.1->Transmit_data;
            let m = s.1->Transmit_len as int;
            let src = chunk(page, address, remaining as int);
            let n = (remaining - s.0.state->ReadRange_remaining_length) as int;
            &&& s.1 is Transmit
            &&& length == remaining ==> d.take(2) == seq![ESCAPE_CHAR, RES_READ_RANGE]
            &&& 0 <= n <= src.len()
            &&& unescaped(d.subrange(h, m)) == src.take(n)
            &&& s.0.state == State::ReadRange {
                address: (address + n) as u32,
                length,
                remaining_length: (remaining - n) as u16,
            }
        }),
{
    let s0 = v.serial->0;
    let h: int = if length == remaining { 2 } else { 0 };
    let src = chunk(page, address, remaining as int);
    let k = fit_count(src, h, s0.len() as int);
    lemma_fit_le(src, h, s0.len() as int);
    let out = escaped(src.take(k as int));
    lemma_escape_round_trip(src.take(k as int));
    let s = read_range_step(v, page, address, length, remaining);
    let d = s.1->Transmit_data;
    assert(d.subrange(h, h + out.len()) =~= out);
    if length == remaining {
        assert(d.take(2) =~= seq![ESCAPE_CHAR, RES_READ_RANGE]);
    }
}

pub open spec fn opt_view(o: Option<Vec<u8>>) -> Option<Seq<u8>> {
    match o {
        Some(v) => Some(v@),
        None => None,
    }
}

fn put_response(buf: &mut Vec<u8>, code: u8)
    requires
        old(buf)@.len() >= 2,
    ensures
        final(buf)@ == response(old(buf)@, code),
{
    buf.set(0, ESCAPE_CHAR);
    buf.set(1, code);
}

fn smaller(a: usize, b: usize) -> (r: usize)
    ensures
        r == min(a as int, b as int),
{
    if a <= b {
        a
    } else {
        b
    }
}

/// Writes `b` at `idx` as it appears on the wire.
fn put_escaped_byte(buf: &mut Vec<u8>, idx: usize, b: u8) -> (r: usize)
    requires
        idx + escape_one(b).len() <= old(buf)@.len(),
    ensures
        r == idx + escape_one(b).len(),
        final(buf)@.len() == old(buf)@.len(),
        final(buf)@ == old(buf)@.take(idx as int) + escape_one(b) + old(buf)@.skip(r as int),
{
    let ghost orig = buf@;
    let n = buf.len();
    let mut i = idx;
    if b == ESCAPE_CHAR {
        buf.set(i, ESCAPE_CHAR);
        i += 1;
    }
    buf.set(i, b);
    assert(buf@ =~= orig.take(idx as int) + escape_one(b) + orig.skip(i + 1));
    i + 1
}

/// Byte `j` of the info payload: the version string, then zeros.
fn info_byte(page: &Vec<u8>, vlen: usize, j: usize) -> (r: u8)
    requires
        vlen == version_len(page@),
        j < INFO_PAYLOAD_LEN,
    ensures
        r == info_payload(page@)[j as int],
{
    proof {
        lemma_version_len(page@);
    }
    if j < vlen {
        page[VERSION_OFFSET + j]
    } else {
        0
    }
}

/// Writes the info response for the metadata page `page` into `buf`.
fn fill_info(buf: &mut Vec<u8>, page: &Vec<u8>) -> (len: usize)
    requires
        old(buf)@.len() >= MIN_SERIAL_LEN,
    ensures
        final(buf)@ == info_response(old(buf)@, page@),
        len == 2 + escaped(info_payload(page@)).len(),
{
    let ghost orig = buf@;
    let plen = page.len();
    let mut vlen: usize = 0;
    while vlen < VERSION_MAX && VERSION_OFFSET + vlen < plen && page[VERSION_OFFSET + vlen] != 0
        invariant
            vlen <= VERSION_MAX,
            plen == page@.len(),
            version_len(page@) == version_run(page@, vlen as nat),
        decreases VERSION_MAX - vlen,
    {
        vlen += 1;
    }
    proof {
        lemma_version_len(page@);
    }
    put_response(buf, RES_INFO);
    let ghost hdr = buf@;
    let ghost payload = info_payload(page@);
    let mut idx: usize = 2;
    let mut j: usize = 0;
    assert(payload.take(0) =~= Seq::<u8>::empty());
    assert(buf@ =~= hdr.take(2) + escaped(payload.take(0)) + hdr.skip(2));
    while j < INFO_PAYLOAD_LEN
        invariant
            j <= INFO_PAYLOAD_LEN,
            vlen == version_len(page@),
            vlen <= VERSION_MAX,
            payload == info_payload(page@),
            hdr.len() == orig.len(),
            buf@.len() == orig.len(),
            orig.len() >= MIN_SERIAL_LEN,
            idx == 2 + escaped(payload.take(j as int)).len(),
            idx <= 2 + j + (if j < VERSION_MAX { j } else { VERSION_MAX as usize }),
            buf@ == hdr.take(2) + escaped(payload.take(j as int)) + hdr.skip(idx as int),
        decreases INFO_PAYLOAD_LEN - j,
    {
        let b = info_byte(page, vlen, j);
        proof {
            assert(payload.take(j + 1) =~= payload.take(j as int).push(b));
            lemma_escaped_push(payload.take(j as int), b);
        }
        let ghost pre = buf@;
        let ghost i0 = idx;
        idx = put_escaped_byte(buf, idx, b);
        j += 1;
        proof {
            assert(pre.take(i0 as int) =~= hdr.take(2) + escaped(payload.take(j - 1)));
            assert(pre.skip(idx as int) =~= hdr.skip(idx as int));
            assert(buf@ =~= hdr.take(2) + escaped(payload.take(j as int)) + hdr.skip(idx as int));
        }
    }
    proof {
        assert(payload.take(INFO_PAYLOAD_LEN as int) =~= payload);
        assert(hdr.take(2) =~= seq![ESCAPE_CHAR, RES_INFO]);
        assert(hdr.skip(idx as int) =~= orig.skip(idx as int));
    }
    idx
}

/// Writes the checksum response for the final value `x` into `buf`.
fn fill_crc(buf: &mut Vec<u8>, x: u32) -> (len: usize)
    requires
        old(buf)@.len() >= MIN_SERIAL_LEN,
    ensures
        final(buf)@ == crc_response(old(buf)@, x),
        len == 2 + escaped(le_bytes(x)).len(),
{
    let ghost orig = buf@;
    put_response(buf, RES_CRCIF);
    let ghost hdr = buf@;
    let bytes: [u8; 4] = [
        (x & 0xFF) as u8,
        ((x >> 8) & 0xFF) as u8,
        ((x >> 16) & 0xFF) as u8,
        ((x >> 24) & 0xFF) as u8,
    ];
    let ghost le = le_bytes(x);
    assert(bytes@ =~= le);
    let mut idx: usize = 2;
    let mut k: usize = 0;
    assert(le.take(0) =~= Seq::<u8>::empty());
    assert(buf@ =~= hdr.take(2) + escaped(le.take(0)) + hdr.skip(2));
    while k < 4
        invariant
            k <= 4,
            bytes@ == le,
            le.len() == 4,
            hdr.len() == orig.len(),
            buf@.len() == orig.len(),
            orig.len() >= MIN_SERIAL_LEN,
            idx == 2 + escaped(le.take(k as int)).len(),
            idx <= 2 + 2 * k,
            buf@ == hdr.take(2) + escaped(le.take(k as int)) + hdr.skip(idx as int),
        decreases 4 - k,
    {
        let b = bytes[k];
        proof {
            assert(le.take(k + 1) =~= le.take(k as int).push(b));
            lemma_escaped_push(le.take(k as int), b);
        }
        let ghost pre = buf@;
        let ghost i0 = idx;
        idx = put_escaped_byte(buf, idx, b);
        k += 1;
        proof {
            assert(pre.take(i0 as int) =~= hdr.take(2) + escaped(le.take(k - 1)));
            assert(pre.skip(idx as int) =~= hdr.skip(idx as int));
            assert(buf@ =~= hdr.take(2) + escaped(le.take(k as int)) + hdr.skip(idx as int));
        }
    }
    proof {
        assert(le.take(4) =~= le);
        assert(hdr.take(2) =~= seq![ESCAPE_CHAR, RES_CRCIF]);
        assert(hdr.skip(idx as int) =~= orig.skip(idx as int));
    }
    idx
}

/// Copies the 64-byte record at the start of `rec` into the slot of `index`.
fn put_record(page: &mut Vec<u8>, index: u8, rec: &Vec<u8>)
    requires
        attr_offset(index) + RECORD_LEN <= old(page)@.len(),
        rec@.len() >= RECORD_LEN,
    ensures
        final(page)@ == overlay(old(page)@, index, rec@.take(RECORD_LEN as int)),
{
    let ghost orig = page@;
    let start = attribute_offset(index);
    let mut i: usize = 0;
    while i < RECORD_LEN
        invariant
            i <= RECORD_LEN,
            start == attr_offset(index),
            start + RECORD_LEN <= orig.len(),
            rec@.len() >= RECORD_LEN,
            page@.len() == orig.len(),
            forall|j: int| 0 <= j < start ==> page@[j] == orig[j],
            forall|m: int| start <= m < start + i ==> page@[m] == rec@[m - start],
            forall|j: int| start + i <= j < orig.len() ==> page@[j] == orig[j],
        decreases RECORD_LEN - i,
    {
        page.set(start + i, rec[i]);
        i += 1;
    }
    let ghost want = overlay(orig, index, rec@.take(RECORD_LEN as int));
    assert forall|m: int| 0 <= m < orig.len() implies page@[m] == want[m] by {
        if start <= m < start + RECORD_LEN {
            assert(page@[m] == rec@[m - start]);
        }
    }
    assert(page@ =~= want);
}

/// Copies `data` into `page`, of the same length.
fn fill_page(page: &mut Vec<u8>, data: &Vec<u8>)
    requires
        old(page)@.len() == data@.len(),
    ensures
        final(page)@ == data@,
{
    let n = data.len();
    let mut i: usize = 0;
    while i < n
        invariant
            i <= n,
            n == data@.len(),
            page@.len() == n,
            forall|j: int| 0 <= j < i ==> page@[j] == data@[j],
        decreases n - i,
    {
        page.set(i, data[i]);
        i += 1;
    }
    assert(page@ =~= data@);
}

/// The bootloader: its state, its two buffers while it holds them, and the
/// command decoder it feeds received bytes to.
pub struct Bootloader {
    decoder: tockloader_proto::CommandDecoder,
    crc_table: Crc32Table,
    page_buffer: Option<Vec<u8>>,
    buffer: Option<Vec<u8>>,
    state: State,
    page_size: usize,
}

impl Bootloader {
    pub closed spec fn view(&self) -> BootView {
        mk(self.state, opt_view(self.buffer), opt_view(self.page_buffer), self.page_size as nat)
    }

    /// The bytes the command decoder holds and its escape state.
    pub closed spec fn decoder_view(&self) -> (Seq<u8>, bool) {
        (pending_of(self.decoder), escaping_of(self.decoder))
    }

    pub closed spec fn tables_ok(&self) -> bool {
        self.crc_table.wf()
    }

    pub open spec fn wf(&self) -> bool {
        self.tables_ok() && view_wf(self@)
    }

    /// A bootloader that owns both buffers; the page size is the length of
    /// the page buffer.
    pub fn new(page_buffer: Vec<u8>, buffer: Vec<u8>) -> (r: Bootloader)
        requires
            page_buffer@.len() > 0,
            buffer@.len() >= MIN_SERIAL_LEN,
        ensures
            r.wf(),
            r@ == mk(State::Idle, Some(buffer@), Some(page_buffer@), page_buffer@.len()),
            r.decoder_view() == (Seq::<u8>::empty(), false),
    {
        let page_size = page_buffer.len();
        Bootloader {
            decoder: tockloader_proto::CommandDecoder::new(),
            crc_table: Crc32Table::new(),
            page_buffer: Some(page_buffer),
            buffer: Some(buffer),
            state: State::Idle,
            page_size,
        }
    }

    /// The operation in progress.
    pub fn state(&self) -> (r: State)
        ensures
            r == self@.state,
    {
        self.state
    }

    /// The size of a flash page.
    pub fn page_size(&self) -> (r: usize)
        ensures
            r == self@.page_size,
    {
        self.page_size
    }

    /// Starts listening for the first frame.
    pub fn initialize(&mut self) -> (act: Action)
        requires
            old(self).wf(),
        ensures
            final(self).wf(),
            final(self).decoder_view() == old(self).decoder_view(),
            (final(self)@, act@) == listen(old(self)@),
    {
        match self.buffer.take() {
            Some(buffer) => Action::Receive { buffer },
            None => Action::Nothing,
        }
    }

    /// Sends a two-byte response frame with the code `response`.
    pub fn send_response(&mut self, response: u8) -> (act: Action)
        requires
            old(self).wf(),
        ensures
            final(self).wf(),
            final(self).decoder_view() == old(self).decoder_view(),
            (final(self)@, act@) == send_step(old(self)@, response),
    {
        match self.buffer.take() {
            Some(mut buffer) => {
                put_response(&mut buffer, response);
                Action::Transmit { buffer, len: 2 }
            },
            None => Action::Nothing,
        }
    }

    fn read_into(&mut self, page_no: usize) -> (act: Action)
        requires
            old(self).wf(),
        ensures
            final(self).wf(),
            final(self).decoder_view() == old(self).decoder_view(),
            (final(self)@, act@) == read_into(old(self)@, page_no as nat),
    {
        match self.page_buffer.take() {
            Some(buffer) => Action::ReadPage { page: page_no, buffer },
            None => Action::Nothing,
        }
    }

    fn refuse(&mut self, mut buffer: Vec<u8>) -> (act: Action)
        requires
            old(self).wf(),
            buffer@.len() >= MIN_SERIAL_LEN,
        ensures
            final(self).wf(),
            final(self).decoder_view() == old(self).decoder_view(),
            (final(self)@, act@) == bad_args(old(self)@, buffer@),
    {
        put_response(&mut buffer, RES_BADARGS);
        self.state = State::Idle;
        self.buffer = None;
        Action::Transmit { buffer, len: 2 }
    }

    fn reply(&mut self, mut buffer: Vec<u8>, code: u8) -> (act: Action)
        requires
            old(self).wf(),
            buffer@.len() >= MIN_SERIAL_LEN,
        ensures
            final(self).wf(),
            final(self).decoder_view() == old(self).decoder_view(),
            (final(self)@, act@) == reply(old(self)@, buffer@, code),
    {
        put_response(&mut buffer, code);
        self.buffer = None;
        Action::Transmit { buffer, len: 2 }
    }

    /// Acts on a decoded frame that was received into `buffer`.
    pub fn dispatch(&mut self, buffer: Vec<u8>, frame: Result<BootCommand, DecodeError>) -> (act: Action)
        requires
            old(self).wf(),
            buffer@.len() >= MIN_SERIAL_LEN,
        ensures
            final(self).wf(),
            (old(self)@.state is Idle && (frame matches Ok(BootCommand::Reset))) ==> final(self).decoder_view() == (
                Seq::<u8>::empty(),
                old(self).decoder_view().1,
            ),
            !(old(self)@.state is Idle && (frame matches Ok(BootCommand::Reset))) ==> final(self).decoder_view() == old(
                self,
            ).decoder_view(),
            (final(self)@, act@) == command_step(old(self)@, buffer@, frame),
    {
        let ps = self.page_size;
        if !matches!(self.state, State::Idle) {
            self.buffer = Some(buffer);
            return Action::Nothing;
        }
        match frame {
            Err(_) => self.reply(buffer, RES_INTERNAL_ERROR),
            Ok(BootCommand::Ping) => self.reply(buffer, RES_PONG),
            Ok(BootCommand::Reset) => {
                self.decoder.reset();
                self.buffer = None;
                Action::Receive { buffer }
            },
            Ok(BootCommand::Info) => {
                self.state = State::Info;
                self.buffer = Some(buffer);
                self.read_into(INFO_PAGE)
            },
            Ok(BootCommand::ReadRange { address, length }) => {
                self.state = State::ReadRange { address, length, remaining_length: length };
                self.buffer = Some(buffer);
                self.read_into(address as usize / ps)
            },
            Ok(BootCommand::WritePage { address, data }) => {
                match self.page_buffer.take() {
                    None => {
                        self.buffer = Some(buffer);
                        Action::Nothing
                    },
                    Some(mut page) => {
                        if data.len() != ps {
                            self.page_buffer = Some(page);
                            self.refuse(buffer)
                        } else {
                            fill_page(&mut page, &data);
                            self.state = State::WriteFlashPage;
                            self.buffer = Some(buffer);
                            Action::WritePage { page: address as usize / ps, buffer: page }
                        }
                    },
                }
            },
            Ok(BootCommand::ErasePage { address }) => {
                self.state = State::ErasePage;
                self.buffer = Some(buffer);
                Action::ErasePage { page: address as usize / ps }
            },
            Ok(BootCommand::CrcIntFlash { address, length }) => {
                self.state = State::Crc { address, remaining_length: length, crc: CRC_SEED };
                self.buffer = Some(buffer);
                self.read_into(address as usize / ps)
            },
            Ok(BootCommand::GetAttr { index }) => {
                if attribute_offset(index) + RECORD_LEN > ps {
                    self.refuse(buffer)
                } else {
                    self.state = State::GetAttribute { index };
                    self.buffer = Some(buffer);
                    self.read_into(attribute_page(index))
                }
            },
            Ok(BootCommand::SetAttr { index, key, value }) => {
                if key.len() != KEY_LEN || value.len() > VALUE_MAX || attribute_offset(index)
                    + RECORD_LEN > ps {
                    self.refuse(buffer)
                } else {
                    let mut buffer = buffer;
                    stage_record(&mut buffer, &key, &value);
                    proof {
                        assert(buffer@ =~= record(key@, value@) + buffer@.skip(RECORD_LEN as int));
                    }
                    self.state = State::SetAttribute { index };
                    self.buffer = Some(buffer);
                    self.read_into(attribute_page(index))
                }
            },
            Ok(BootCommand::Unknown) => self.reply(buffer, RES_UNKNOWN),
        }
    }

    /// A reception of `rx_len` bytes into `buffer` completed; `ok` is false
    /// on a transport error. The bytes are fed to the decoder until it
    /// reports a command or an error, and that frame is acted on; the rest
    /// of the buffer is dropped. Without a complete frame the bootloader
    /// listens again. On a transport error it keeps the buffer and stays
    /// silent.
    pub fn receive_complete(&mut self, buffer: Vec<u8>, rx_len: usize, ok: bool) -> (act: Action)
        requires
            old(self).wf(),
            buffer@.len() >= MIN_SERIAL_LEN,
            rx_len <= buffer@.len(),
        ensures
            final(self).wf(),
            !ok ==> (final(self)@, act@) == (mk(
                old(self)@.state,
                Some(buffer@),
                old(self)@.page,
                old(self)@.page_size,
            ), Act::Nothing) && final(self).decoder_view() == old(self).decoder_view(),
            ok ==> ({
                let sc = scan(
                    old(self).decoder_view().0,
                    old(self).decoder_view().1,
                    buffer@.take(rx_len as int),
                    0,
                );
                &&& sc.0 < 0 ==> (final(self)@, act@) == (old(self)@, Act::Receive { data: buffer@ })
                    && final(self).decoder_view() == (sc.1, sc.2)
                &&& sc.0 >= 0 ==> final(self).decoder_view() == (Seq::<u8>::empty(), false)
                    && exists|f: Result<BootCommand, DecodeError>|
                    frame_reads(sc.1, buffer@[sc.0], f) && (final(self)@, act@)
                        == #[trigger] command_step(old(self)@, buffer@, f)
            }),
    {
        if !ok {
            self.buffer = Some(buffer);
            return Action::Nothing;
        }
        let ghost bytes = buffer@.take(rx_len as int);
        let ghost start = scan(self.decoder_view().0, self.decoder_view().1, bytes, 0);
        let mut i: usize = 0;
        while i < rx_len
            invariant
                i <= rx_len,
                ok,
                rx_len <= buffer@.len(),
                bytes == buffer@.take(rx_len as int),
                buffer@.len() >= MIN_SERIAL_LEN,
                self.wf(),
                self@ == old(self)@,
                start == scan(old(self).decoder_view().0, old(self).decoder_view().1, bytes, 0),
                start == scan(self.decoder_view().0, self.decoder_view().1, bytes, i as nat),
            decreases rx_len - i,
        {
            let ghost before = self.decoder_view();
            let b = buffer[i];
            assert(bytes[i as int] == b);
            match feed(&mut self.decoder, b) {
                None => {},
                Some(frame) => {
                    assert(start == (i as int, before.0, before.1));
                    let act = self.dispatch(buffer, frame);
                    return act;
                },
            }
            i += 1;
        }
        Action::Receive { buffer }
    }

    /// A transmission from `buffer` completed; `ok` is false on a transport
    /// error, after which the bootloader keeps the buffer and stays silent.
    pub fn transmit_complete(&mut self, buffer: Vec<u8>, ok: bool) -> (act: Action)
        requires
            old(self).wf(),
            buffer@.len() >= MIN_SERIAL_LEN,
        ensures
            final(self).wf(),
            final(self).decoder_view() == old(self).decoder_view(),
            (final(self)@, act@) == transmit_step(old(self)@, buffer@, ok),
    {
        if !ok {
            self.buffer = Some(buffer);
            return Action::Nothing;
        }
        match self.state {
            State::ReadRange { address, length: _, remaining_length } => {
                if remaining_length == 0 {
                    self.state = State::Idle;
                    self.buffer = None;
                    Action::Receive { buffer }
                } else {
                    self.buffer = Some(buffer);
                    let ps = self.page_size;
                    self.read_into(address as usize / ps)
                }
            },
            _ => Action::Receive { buffer },
        }
    }

    /// A flash read into `page` completed.
    pub fn read_complete(&mut self, page: Vec<u8>) -> (act: Action)
        requires
            old(self).wf(),
            page@.len() == old(self)@.page_size,
        ensures
            final(self).wf(),
            final(self).decoder_view() == old(self).decoder_view(),
            (final(self)@, act@) == read_step(old(self)@, page@),
    {
        match self.state {
            State::Info => {
                self.state = State::Idle;
                match self.buffer.take() {
                    Some(mut buffer) => {
                        let len = fill_info(&mut buffer, &page);
                        self.page_buffer = Some(page);
                        Action::Transmit { buffer, len }
                    },
                    None => {
                        self.page_buffer = Some(page);
                        Action::Nothing
                    },
                }
            },
            State::GetAttribute { index } => {
                self.state = State::Idle;
                match self.buffer.take() {
                    Some(mut buffer) => {
                        put_response(&mut buffer, RES_GET_ATTR);
                        let start = attribute_offset(index);
                        proof {
                            lemma_fit_all(
                                page@.subrange(start as int, start + RECORD_LEN),
                                2,
                                buffer@.len() as int,
                            );
                            assert(page@.subrange(start as int, start + RECORD_LEN).take(
                                RECORD_LEN as int,
                            ) =~= page@.subrange(start as int, start + RECORD_LEN));
                        }
                        let ghost before = buffer@;
                        let ghost s0 = old(self)@.serial->0;
                        let (_, len) = copy_escaped(&mut buffer, 2, &page, start, RECORD_LEN);
                        proof {
                            assert(before.take(2) =~= seq![ESCAPE_CHAR, RES_GET_ATTR]);
                            assert(before.skip(len as int) =~= s0.skip(len as int));
                            assert(buffer@ =~= attr_response(s0, page@, index));
                        }
                        self.page_buffer = Some(page);
                        Action::Transmit { buffer, len }
                    },
                    None => {
                        self.page_buffer = Some(page);
                        Action::Nothing
                    },
                }
            },
            State::SetAttribute { index } => {
                match &self.buffer {
                    Some(buffer) => {
                        let mut page = page;
                        put_record(&mut page, index, buffer);
                        Action::WritePage { page: attribute_page(index), buffer: page }
                    },
                    None => {
                        self.page_buffer = Some(page);
                        Action::Nothing
                    },
                }
            },
            State::ReadRange { address, length, remaining_length } => self.read_range_chunk(
                page,
                address,
                length,
                remaining_length,
            ),
            State::Crc { address, remaining_length, crc } => self.crc_chunk(
                page,
                address,
                remaining_length,
                crc,
            ),
            _ => {
                self.page_buffer = Some(page);
                Action::Nothing
            },
        }
    }

    fn read_range_chunk(&mut self, page: Vec<u8>, address: u32, length: u16, remaining_length: u16) -> (act: Action)
        requires
            old(self).wf(),
            page@.len() == old(self)@.page_size,
            old(self)@.state == (State::ReadRange { address, length, remaining_length }),
        ensures
            final(self).wf(),
            final(self).decoder_view() == old(self).decoder_view(),
            (final(self)@, act@) == read_range_step(old(self)@, page@, address, length, remaining_length),
    {
        match self.buffer.take() {
            Some(mut buffer) => {
                let first = length == remaining_length;
                let mut index: usize = 0;
                if first {
                    put_response(&mut buffer, RES_READ_RANGE);
                    index = 2;
                }
                let ps = page.len();
                let pi = address as usize % ps;
                let len = smaller(ps - pi, remaining_length as usize);
                let (copied, end) = copy_escaped(&mut buffer, index, &page, pi, len);
                let sum: u64 = address as u64 + copied as u64;
                self.state = State::ReadRange {
                    address: (sum % 0x1_0000_0000) as u32,
                    length,
                    remaining_length: remaining_length - copied as u16,
                };
                self.page_buffer = Some(page);
                Action::Transmit { buffer, len: end }
            },
            None => {
                self.page_buffer = Some(page);
                Action::Nothing
            },
        }
    }

    fn crc_chunk(&mut self, page: Vec<u8>, address: u32, remaining_length: u32, crc: u32) -> (act: Action)
        requires
            old(self).wf(),
            page@.len() == old(self)@.page_size,
            old(self)@.state == (State::Crc { address, remaining_length, crc }),
        ensures
            final(self).wf(),
            final(self).decoder_view() == old(self).decoder_view(),
            (final(self)@, act@) == crc_step(old(self)@, page@, address, remaining_length, crc),
    {
        let ps = page.len();
        let pi = address as usize % ps;
        let len = smaller(ps - pi, remaining_length as usize);
        let c = self.crc_table.update(crc, &page, pi, len);
        let sum: u64 = address as u64 + len as u64;
        let new_address = (sum % 0x1_0000_0000) as u32;
        let new_remaining = remaining_length - len as u32;
        if new_remaining == 0 {
            self.state = State::Idle;
            match self.buffer.take() {
                Some(mut buffer) => {
                    let len = fill_crc(&mut buffer, c ^ 0xFFFF_FFFF);
                    self.page_buffer = Some(page);
                    Action::Transmit { buffer, len }
                },
                None => {
                    self.page_buffer = Some(page);
                    Action::Nothing
                },
            }
        } else {
            self.state = State::Crc {
                address: new_address,
                remaining_length: new_remaining,
                crc: c,
            };
            Action::ReadPage { page: new_address as usize / ps, buffer: page }
        }
    }

    /// A flash write from `page` completed.
    pub fn write_complete(&mut self, page: Vec<u8>) -> (act: Action)
        requires
            old(self).wf(),
            page@.len() == old(self)@.page_size,
        ensures
            final(self).wf(),
            final(self).decoder_view() == old(self).decoder_view(),
            (final(self)@, act@) == write_step(old(self)@, page@),
    {
        self.page_buffer = Some(page);
        let done = match self.state {
            State::WriteFlashPage => true,
            State::SetAttribute { .. } => true,
            _ => false,
        };
        self.finish(done)
    }

    /// A flash erase completed.
    pub fn erase_complete(&mut self) -> (act: Action)
        requires
            old(self).wf(),
        ensures
            final(self).wf(),
            final(self).decoder_view() == old(self).decoder_view(),
            (final(self)@, act@) == erase_step(old(self)@),
    {
        let done = match self.state {
            State::ErasePage => true,
            _ => false,
        };
        self.finish(done)
    }

    fn finish(&mut self, done: bool) -> (act: Action)
        requires
            old(self).wf(),
        ensures
            final(self).wf(),
            final(self).decoder_view() == old(self).decoder_view(),
            (final(self)@, act@) == finish(
                mk(old(self)@.state, old(self)@.serial, None, old(self)@.page_size),
                old(self)@.page,
                done,
                RES_OK,
            ),
    {
        if done {
            self.state = State::Idle;
        }
        match self.buffer.take() {
            Some(mut buffer) => {
                if done {
                    put_response(&mut buffer, RES_OK);
                    Action::Transmit { buffer, len: 2 }
                } else {
                    Action::Receive { buffer }
                }
            },
            None => Action::Nothing,
        }
    }
}

} // verus!
