//! The browser-extension side door: the request shape, its command word,
//! and the little-endian length framing of the native-messaging protocol.

use vstd::prelude::*;
use crate::foc_error::FocError;
use vstd::string::StringExecFns;

verus! {

/// A request sent by the browser extension.
pub struct Request {
    pub name: String,
    pub url: String,
    pub image: String,
    pub command: String,
}

/// The mathematical shape of a request.
pub ghost struct RequestV {
    pub name: Seq<char>,
    pub url: Seq<char>,
    pub image: Seq<char>,
    pub command: Seq<char>,
}

impl View for Request {
    type V = RequestV;

    open spec fn view(&self) -> RequestV {
        RequestV { name: self.name@, url: self.url@, image: self.image@, command: self.command@ }
    }
}

/// The commands the extension can ask for.
pub enum Command {
    SaveUrl,
}

impl Command {
    /// Parses the command word of a request. Callers must check the word
    /// first: the protocol treats any other word as fatal.
    pub fn from_string(command: &str) -> (c: Command)
        requires
            command@ == "saveUrl"@,
        ensures
            c is SaveUrl,
    {
        Command::SaveUrl
    }
}

/// The value of a little-endian length prefix.
pub open spec fn spec_u32_le(b: Seq<u8>) -> int
    recommends
        b.len() == 4,
{
    b[0] + 0x100 * b[1] + 0x1_0000 * b[2] + 0x100_0000 * b[3]
}

/// Reads a message length from its four-byte little-endian prefix.
pub fn to_u32(arr: [u8; 4]) -> (v: u32)
    ensures
        v == spec_u32_le(arr@),
{
    let b0 = arr[0] as u32;
    let b1 = arr[1] as u32;
    let b2 = arr[2] as u32;
    let b3 = arr[3] as u32;
    b0 + 0x100 * b1 + 0x1_0000 * b2 + 0x100_0000 * b3
}

/// Renders a message length as its four-byte little-endian prefix.
pub fn to_byte_array(value: u32) -> (arr: [u8; 4])
    ensures
        arr@.len() == 4,
        spec_u32_le(arr@) == value,
{
    let b0 = (value % 0x100) as u8;
    let b1 = ((value / 0x100) % 0x100) as u8;
    let b2 = ((value / 0x1_0000) % 0x100) as u8;
    let b3 = (value / 0x100_0000) as u8;
    [b0, b1, b2, b3]
}

/// A length prefix decodes to exactly one byte form: two four-byte
/// prefixes carrying the same value are the same bytes. Together with
/// the contracts of [`to_u32`] and [`to_byte_array`], framing a length
/// and reading it back round-trips both ways.
pub proof fn lemma_length_prefix_unique(a: Seq<u8>, b: Seq<u8>)
    requires
        a.len() == 4,
        b.len() == 4,
        spec_u32_le(a) == spec_u32_le(b),
    ensures
        a == b,
{
    assert(a[0] == spec_u32_le(a) % 0x100 && b[0] == spec_u32_le(b) % 0x100) by (nonlinear_arith)
        requires
            a.len() == 4,
            b.len() == 4,
            a[0] < 256 && a[1] < 256 && a[2] < 256 && a[3] < 256,
            b[0] < 256 && b[1] < 256 && b[2] < 256 && b[3] < 256,
    ;
    assert((spec_u32_le(a) / 0x100) % 0x100 == a[1] && (spec_u32_le(b) / 0x100) % 0x100 == b[1])
        by (nonlinear_arith)
        requires
            a.len() == 4,
            b.len() == 4,
            a[0] < 256 && a[1] < 256 && a[2] < 256 && a[3] < 256,
            b[0] < 256 && b[1] < 256 && b[2] < 256 && b[3] < 256,
    ;
    assert((spec_u32_le(a) / 0x1_0000) % 0x100 == a[2] && (spec_u32_le(b) / 0x1_0000) % 0x100
        == b[2]) by (nonlinear_arith)
        requires
            a.len() == 4,
            b.len() == 4,
            a[0] < 256 && a[1] < 256 && a[2] < 256 && a[3] < 256,
            b[0] < 256 && b[1] < 256 && b[2] < 256 && b[3] < 256,
    ;
    assert(spec_u32_le(a) / 0x100_0000 == a[3] && spec_u32_le(b) / 0x100_0000 == b[3])
        by (nonlinear_arith)
        requires
            a.len() == 4,
            b.len() == 4,
            a[0] < 256 && a[1] < 256 && a[2] < 256 && a[3] < 256,
            b[0] < 256 && b[1] < 256 && b[2] < 256 && b[3] < 256,
    ;
    assert(a =~= b);
}

/// The largest message the extension transport accepts.
pub const MAX_EXTENSION_MESSAGE: usize = 0x100000;

/// Frames a message for the native-messaging transport: its length as a
/// four-byte little-endian prefix, then the payload. A message over the
/// 1 MiB cap is refused.
pub fn frame_message(payload: &Vec<u8>) -> (r: Result<Vec<u8>, FocError>)
    ensures
        payload@.len() > 0x100000 ==> (r is Err && r->Err_0 is Extension),
        payload@.len() <= 0x100000 ==> (r matches Ok(v) && v@.len() == 4 + payload@.len()
            && v@.skip(4) == payload@ && spec_u32_le(v@.take(4)) == payload@.len()),
{
    if payload.len() > MAX_EXTENSION_MESSAGE {
        return Err(
            FocError::Extension(
                String::from_str("Message we tried to send to the extension is too long!"),
            ),
        );
    }
    let len32: u32 = payload.len() as u32;
    let prefix = to_byte_array(len32);
    let mut out: Vec<u8> = Vec::new();
    out.push(prefix[0]);
    out.push(prefix[1]);
    out.push(prefix[2]);
    out.push(prefix[3]);
    proof {
        assert(out@ =~= prefix@);
        assert(out@.take(4) =~= prefix@);
        assert(out@.skip(4) =~= payload@.take(0));
    }
    let mut i: usize = 0;
    while i < payload.len()
        invariant
            i <= payload@.len(),
            out@.len() == 4 + i,
            out@.take(4) == prefix@,
            out@.skip(4) == payload@.take(i as int),
        decreases payload@.len() - i,
    {
        out.push(payload[i]);
        proof {
            assert(out@.take(4) =~= prefix@);
            assert(out@.skip(4) =~= payload@.take(i + 1));
        }
        i = i + 1;
    }
    proof {
        assert(payload@.take(payload@.len() as int) =~= payload@);
    }
    Ok(out)
}

} // verus!
