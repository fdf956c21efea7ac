use artnet_protocol::ArtCommand;
use vstd::prelude::*;

verus! {

/// The error with which the Art-Net decoder refuses a datagram.
#[verifier::external_type_specification]
#[verifier::external_body]
pub struct ExArtNetError(artnet_protocol::Error);

/// A decoded Art-Net command, as far as the gateway acts on it.
#[derive(Debug, Clone, PartialEq, Eq)]
pub enum ArtNetCommand {
    /// DMX data for the channels of one universe, from channel 0 on.
    Output { universe: u16, sequence: u8, data: Vec<u8> },
    /// Any other command, with the decoder's description of it. The gateway
    /// ignores it.
    Other { description: String },
}

/// A datagram that is no Art-Net command, with the decoder's description of
/// what is wrong with it.
#[derive(Debug, Clone, PartialEq, Eq)]
pub struct DecodeError {
    pub message: String,
}

/// The eight bytes that every Art-Net datagram starts with: the text
/// `Art-Net` and a zero byte.
pub open spec fn artnet_header() -> Seq<u8> {
    seq![0x41u8, 0x72u8, 0x74u8, 0x2Du8, 0x4Eu8, 0x65u8, 0x74u8, 0x00u8]
}

/// Whether a datagram is an output command: the header, the operation code
/// 0x5000 with its low byte first, four bytes for version, sequence number
/// and physical port, a port address of at most 15 bits with its low byte
/// first, and two bytes of length. The data comes after these 18 bytes.
pub open spec fn is_output_datagram(raw: Seq<u8>) -> bool {
    &&& raw.len() >= 18
    &&& raw.subrange(0, 8) == artnet_header()
    &&& raw[8] == 0x00
    &&& raw[9] == 0x50
    &&& raw[15] < 0x80
}

/// The universe that an output datagram is for.
pub open spec fn output_universe(raw: Seq<u8>) -> int {
    raw[14] + 256 * raw[15]
}

/// The sequence number of an output datagram.
pub open spec fn output_sequence(raw: Seq<u8>) -> u8 {
    raw[12]
}

/// The data of an output datagram: all that follows its first 18 bytes.
pub open spec fn output_data(raw: Seq<u8>) -> Seq<u8> {
    raw.subrange(18, raw.len() as int)
}

/// Whether a command is the output command that an output datagram holds:
/// one with the universe, the sequence number and the data of the datagram.
pub open spec fn is_output_of(command: ArtNetCommand, raw: Seq<u8>) -> bool {
    command matches ArtNetCommand::Output { universe, sequence, data } && universe
        == output_universe(raw) && sequence == output_sequence(raw) && data@ == output_data(raw)
}

/// Whether `artnet_protocol::ArtCommand::from_buffer` accepts a datagram:
/// whether it decodes it into a command of any kind.
pub uninterp spec fn artnet_accepts(raw: Seq<u8>) -> bool;

/// Calls `artnet_protocol::ArtCommand::from_buffer` and keeps of an output
/// command its port address, sequence number and data, of any other command
/// what its `Debug` implementation writes. Trusted: that the
/// decoder gives an output command exactly for the datagrams that
/// `is_output_datagram` describes, with the port address read from bytes 14
/// and 15, the sequence number from byte 12 and the data from byte 18 on,
/// whatever the length field says; and that whether it accepts a datagram
/// depends on the bytes of the datagram alone.
#[verifier::external_body]
fn decode_artnet(raw: &[u8]) -> (r: Result<ArtNetCommand, artnet_protocol::Error>)
    ensures
        artnet_accepts(raw@) <==> r is Ok,
        is_output_datagram(raw@) ==> r is Ok && is_output_of(r->Ok_0, raw@),
        !is_output_datagram(raw@) && r is Ok ==> r->Ok_0 is Other,
{
    match ArtCommand::from_buffer(raw) {
        Ok(ArtCommand::Output(output)) => Ok(
            ArtNetCommand::Output {
                universe: u16::from(output.port_address),
                sequence: output.sequence,
                data: output.data.as_ref().clone(),
            },
        ),
        Ok(other) => Ok(ArtNetCommand::Other { description: format!("{:?}", other) }),
        Err(error) => Err(error),
    }
}

/// Calls `to_string` on an `artnet_protocol::Error`, which writes it out
/// through its `Display` implementation. Nothing is claimed of the text.
#[verifier::external_body]
fn describe(error: &artnet_protocol::Error) -> (r: String) {
    error.to_string()
}

/// Decodes a datagram into an Art-Net command. An output datagram gives an
/// output command with its universe, sequence number and data. Any other
/// datagram that the decoder accepts gives `Other`, with the decoder's
/// description of the command. A datagram that the decoder refuses gives an
/// error with the decoder's description.
pub fn decode(raw: &[u8]) -> (r: Result<ArtNetCommand, DecodeError>)
    ensures
        artnet_accepts(raw@) <==> r is Ok,
        is_output_datagram(raw@) ==> r is Ok && is_output_of(r->Ok_0, raw@),
        !is_output_datagram(raw@) && r is Ok ==> r->Ok_0 is Other,
{
    match decode_artnet(raw) {
        Ok(command) => Ok(command),
        Err(error) => Err(DecodeError { message: describe(&error) }),
    }
}

} // verus!
