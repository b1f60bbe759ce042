//! The bridge to tockloader_proto's byte-at-a-time command decoder, and the
//! commands this bootloader acts on.
use vstd::prelude::*;
use crate::wire::ESCAPE_CHAR;

verus! {

/// The decoder is used as an opaque value; it is only fed bytes and reset.
#[verifier::external_type_specification]
#[verifier::external_body]
pub struct ExCommandDecoder(tockloader_proto::CommandDecoder);

/// tockloader_proto's baud mode, declared with its variants so that
/// decoded commands can be matched on.
#[verifier::external_type_specification]
pub struct ExBaudMode(tockloader_proto::BaudMode);

/// tockloader_proto's decoding error, declared with its variants.
#[verifier::external_type_specification]
pub struct ExProtoError(tockloader_proto::Error);

/// tockloader_proto's decoded command, declared with its variants and
/// fields so that it can be turned into a `BootCommand` by verified code.
#[verifier::external_type_specification]
pub struct ExProtoCommand<'a>(tockloader_proto::Command<'a>);

/// The bytes a decoder holds for the frame being received.
pub uninterp spec fn pending_of(d: tockloader_proto::CommandDecoder) -> Seq<u8>;

/// Whether a decoder has just seen an escape byte.
pub uninterp spec fn escaping_of(d: tockloader_proto::CommandDecoder) -> bool;

/// Most bytes a decoder holds for one frame.
pub const DECODER_CAPACITY: usize = 520;

/// Stores a payload byte, unless the frame buffer is full.
pub open spec fn load(p: Seq<u8>, ch: u8) -> Seq<u8> {
    if p.len() < DECODER_CAPACITY {
        p.push(ch)
    } else {
        p
    }
}

/// The command codes that end a frame, with a command or with an error.
pub open spec fn ends_frame(code: u8) -> bool {
    code == 0x01 || (0x03 <= code <= 0x09) || (0x10 <= code <= 0x19) || code == 0x20 || code == 0x21
}

/// Whether the byte `ch`, fed in escape state `esc`, completes a frame.
pub open spec fn completes(esc: bool, ch: u8) -> bool {
    esc && ends_frame(ch)
}

/// The held bytes and the escape state after feeding `ch`.
pub open spec fn decoder_next(p: Seq<u8>, esc: bool, ch: u8) -> (Seq<u8>, bool) {
    if !esc {
        if ch == ESCAPE_CHAR {
            (p, true)
        } else {
            (load(p, ch), false)
        }
    } else if ch == ESCAPE_CHAR {
        (load(p, ESCAPE_CHAR), false)
    } else if ends_frame(ch) {
        (Seq::empty(), false)
    } else {
        (p, false)
    }
}

pub open spec fn le16(p: Seq<u8>, i: int) -> u16 {
    (p[i] as int + 256 * p[i + 1]) as u16
}

pub open spec fn le32(p: Seq<u8>, i: int) -> u32 {
    (p[i] as int + 256 * p[i + 1] + 65536 * p[i + 2] + 16777216 * p[i + 3]) as u32
}

/// A command when the frame holds exactly `n` bytes, else a bad-arguments error.
pub open spec fn sized(
    p: Seq<u8>,
    n: nat,
    r: Result<Option<tockloader_proto::Command>, tockloader_proto::Error>,
    cmd: bool,
) -> bool {
    if p.len() == n {
        cmd
    } else {
        r == Err::<Option<tockloader_proto::Command>, tockloader_proto::Error>(
            tockloader_proto::Error::BadArguments,
        )
    }
}

/// What the decoder reports when the frame bytes `p` are ended by the
/// command code `code`.
pub open spec fn frame_result(
    p: Seq<u8>,
    code: u8,
    r: Result<Option<tockloader_proto::Command>, tockloader_proto::Error>,
) -> bool {
    if code == 0x01 {
        r matches Ok(Some(tockloader_proto::Command::Ping))
    } else if code == 0x03 {
        r matches Ok(Some(tockloader_proto::Command::Info))
    } else if code == 0x04 {
        r matches Ok(Some(tockloader_proto::Command::Id))
    } else if code == 0x05 {
        r matches Ok(Some(tockloader_proto::Command::Reset))
    } else if code == 0x06 {
        sized(p, 4, r, r matches Ok(Some(tockloader_proto::Command::ErasePage { address })) && address == le32(p, 0))
    } else if code == 0x07 {
        sized(p, 516, r, r matches Ok(Some(tockloader_proto::Command::WritePage { address, data }))
            && address == le32(p, 0) && data@ == p.subrange(4, 516))
    } else if code == 0x08 {
        sized(p, 4, r, r matches Ok(Some(tockloader_proto::Command::EraseExBlock { .. })))
    } else if code == 0x09 {
        sized(p, 260, r, r matches Ok(Some(tockloader_proto::Command::WriteExPage { .. })))
    } else if code == 0x10 {
        r matches Ok(Some(tockloader_proto::Command::CrcRxBuffer))
    } else if code == 0x11 {
        sized(p, 6, r, r matches Ok(Some(tockloader_proto::Command::ReadRange { address, length }))
            && address == le32(p, 0) && length == le16(p, 4))
    } else if code == 0x12 {
        sized(p, 6, r, r matches Ok(Some(tockloader_proto::Command::ExReadRange { .. })))
    } else if code == 0x13 {
        if p.len() >= 10 && p.len() == 10 + p[9] {
            r matches Ok(Some(tockloader_proto::Command::SetAttr { index, key, value }))
                && index == p[0] && key@ == p.subrange(1, 9) && value@ == p.subrange(10, p.len() as int)
        } else {
            r == Err::<Option<tockloader_proto::Command>, tockloader_proto::Error>(
                tockloader_proto::Error::BadArguments,
            )
        }
    } else if code == 0x14 {
        sized(p, 1, r, r matches Ok(Some(tockloader_proto::Command::GetAttr { index })) && index == p[0])
    } else if code == 0x15 {
        sized(p, 8, r, r matches Ok(Some(tockloader_proto::Command::CrcIntFlash { address, length }))
            && address == le32(p, 0) && length == le32(p, 4))
    } else if code == 0x16 {
        sized(p, 8, r, r matches Ok(Some(tockloader_proto::Command::CrcExtFlash { .. })))
    } else if code == 0x17 {
        sized(p, 4, r, r matches Ok(Some(tockloader_proto::Command::EraseExPage { .. })))
    } else if code == 0x18 {
        r matches Ok(Some(tockloader_proto::Command::ExtFlashInit))
    } else if code == 0x19 {
        r matches Ok(Some(tockloader_proto::Command::ClockOut))
    } else if code == 0x20 {
        sized(p, 8, r, r matches Ok(Some(tockloader_proto::Command::WriteFlashUserPages { .. })))
    } else {
        if p.len() == 5 && (p[0] == 1 || p[0] == 2) {
            r matches Ok(Some(tockloader_proto::Command::ChangeBaud { .. }))
        } else {
            r == Err::<Option<tockloader_proto::Command>, tockloader_proto::Error>(
                tockloader_proto::Error::BadArguments,
            )
        }
    }
}

/// Relies on tockloader_proto's CommandDecoder::new: no bytes held, not
/// in escape state.
pub assume_specification[ tockloader_proto::CommandDecoder::new ]() -> (r: tockloader_proto::CommandDecoder)
    ensures
        pending_of(r) == Seq::<u8>::empty(),
        !escaping_of(r),
;

/// Relies on tockloader_proto's CommandDecoder::reset: drops the bytes held
/// and leaves the escape state as it was.
pub assume_specification[ tockloader_proto::CommandDecoder::reset ](
    d: &mut tockloader_proto::CommandDecoder,
)
    ensures
        pending_of(*final(d)) == Seq::<u8>::empty(),
        escaping_of(*final(d)) == escaping_of(*old(d)),
;

/// Relies on tockloader_proto's CommandDecoder::receive: outside escape
/// state a byte is stored (an escape byte starts escape state); in escape
/// state a second escape byte stores one escape byte, a command code ends
/// the frame with the command it parses from the held bytes or with an
/// error, and any other byte is ignored.
pub assume_specification<'a>[ tockloader_proto::CommandDecoder::receive ](
    d: &'a mut tockloader_proto::CommandDecoder,
    ch: u8,
) -> (r: Result<Option<tockloader_proto::Command<'a>>, tockloader_proto::Error>)
    ensures
        (pending_of(*final(d)), escaping_of(*final(d))) == decoder_next(
            pending_of(*old(d)),
            escaping_of(*old(d)),
            ch,
        ),
        completes(escaping_of(*old(d)), ch) ==> frame_result(pending_of(*old(d)), ch, r),
        !completes(escaping_of(*old(d)), ch) ==> r matches Ok(None),
;

/// A command as the bootloader acts on it.
#[allow(inconsistent_fields)]
pub enum BootCommand {
    Ping,
    Reset,
    Info,
    ReadRange { address: u32, length: u16 },
    WritePage { address: u32, data: Vec<u8> },
    ErasePage { address: u32 },
    CrcIntFlash { address: u32, length: u32 },
    GetAttr { index: u8 },
    SetAttr { index: u8, key: Vec<u8>, value: Vec<u8> },
    /// A command that parses but that this bootloader does not serve.
    Unknown,
}

/// The byte stream did not form a valid command.
#[derive(Clone, Copy, Debug, PartialEq, Eq, Structural)]
pub struct DecodeError;

/// `r` is the bootloader's reading of the decoded command `c`.
pub open spec fn reads_as(c: tockloader_proto::Command, r: BootCommand) -> bool {
    match c {
        tockloader_proto::Command::Ping => r is Ping,
        tockloader_proto::Command::Reset => r is Reset,
        tockloader_proto::Command::Info => r is Info,
        tockloader_proto::Command::ReadRange { address, length } => r == (BootCommand::ReadRange {
            address,
            length,
        }),
        tockloader_proto::Command::WritePage { address, data } => r matches BootCommand::WritePage {
            address: a,
            data: d,
        } && a == address && d@ == data@,
        tockloader_proto::Command::ErasePage { address } => r == (BootCommand::ErasePage { address }),
        tockloader_proto::Command::CrcIntFlash { address, length } => r == (
        BootCommand::CrcIntFlash { address, length }),
        tockloader_proto::Command::GetAttr { index } => r == (BootCommand::GetAttr { index }),
        tockloader_proto::Command::SetAttr { index, key, value } => r matches BootCommand::SetAttr {
            index: i,
            key: k,
            value: v,
        } && i == index && k@ == key@ && v@ == value@,
        _ => r is Unknown,
    }
}

fn bytes_to_vec(s: &[u8]) -> (v: Vec<u8>)
    ensures
        v@ == s@,
{
    let mut v: Vec<u8> = Vec::new();
    let mut i: usize = 0;
    while i < s.len()
        invariant
            i <= s@.len(),
            v@ == s@.take(i as int),
        decreases s@.len() - i,
    {
        v.push(s[i]);
        i += 1;
        assert(v@ =~= s@.take(i as int));
    }
    assert(s@.take(i as int) =~= s@);
    v
}

/// Turns a decoded command into the bootloader's own reading of it.
pub fn from_proto(c: &tockloader_proto::Command) -> (r: BootCommand)
    ensures
        reads_as(*c, r),
{
    match c {
        tockloader_proto::Command::Ping => BootCommand::Ping,
        tockloader_proto::Command::Reset => BootCommand::Reset,
        tockloader_proto::Command::Info => BootCommand::Info,
        tockloader_proto::Command::ReadRange { address, length } => BootCommand::ReadRange {
            address: *address,
            length: *length,
        },
        tockloader_proto::Command::WritePage { address, data } => BootCommand::WritePage {
            address: *address,
            data: bytes_to_vec(data),
        },
        tockloader_proto::Command::ErasePage { address } => BootCommand::ErasePage { address: *address },
        tockloader_proto::Command::CrcIntFlash { address, length } => BootCommand::CrcIntFlash {
            address: *address,
            length: *length,
        },
        tockloader_proto::Command::GetAttr { index } => BootCommand::GetAttr { index: *index },
        tockloader_proto::Command::SetAttr { index, key, value } => BootCommand::SetAttr {
            index: *index,
            key: bytes_to_vec(key),
            value: bytes_to_vec(value),
        },
        _ => BootCommand::Unknown,
    }
}

/// `f` is the bootloader's reading of the frame of held bytes `p` ended by
/// the command code `code`.
pub open spec fn frame_reads(p: Seq<u8>, code: u8, f: Result<BootCommand, DecodeError>) -> bool {
    exists|r: Result<Option<tockloader_proto::Command>, tockloader_proto::Error>|
        #[trigger] frame_result(p, code, r) && match r {
            Ok(Some(c)) => f matches Ok(b) && reads_as(c, b),
            Ok(None) => false,
            Err(_) => f is Err,
        }
}

/// Feeds one byte to the decoder: `None` while more bytes are needed, then
/// the decoded command or the decoding error.
pub fn feed(d: &mut tockloader_proto::CommandDecoder, b: u8) -> (r: Option<
    Result<BootCommand, DecodeError>,
>)
    ensures
        (pending_of(*final(d)), escaping_of(*final(d))) == decoder_next(
            pending_of(*old(d)),
            escaping_of(*old(d)),
            b,
        ),
        r is None <==> !completes(escaping_of(*old(d)), b),
        r matches Some(f) ==> frame_reads(pending_of(*old(d)), b, f),
{
    let ghost p = pending_of(*d);
    let r = d.receive(b);
    let ghost rr = r;
    match r {
        Ok(None) => {
            proof {
                if completes(escaping_of(*old(d)), b) {
                    assert(frame_result(p, b, rr));
                }
            }
            None
        },
        Ok(Some(c)) => {
            let f = from_proto(&c);
            assert(frame_result(p, b, rr));
            Some(Ok(f))
        },
        Err(e) => {
            assert(frame_result(p, b, rr));
            Some(Err(DecodeError))
        },
    }
}

} // verus!
