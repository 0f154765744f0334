//! The interface requests that go to the kernel: the bytes of `struct ifreq`.

use crate::error::{NetmuxError, Result};
use vstd::prelude::*;
use vstd::utf8::encode_utf8;

verus! {

/// The length of an interface request.
pub const REQUEST_LEN: usize = 40;

/// The length of the name in an interface request.
pub const NAME_LEN: usize = 16;

/// Where the two bytes of the interface flags stand in a request.
pub const FLAGS_AT: usize = 16;

/// Maximum IP packet we are willing to read from the TUN (64 KiB).
pub const MAX_PACKET: usize = 65536;

/// The request for the interface with the given name and no flags.
pub open spec fn request_for(name: Seq<u8>) -> Seq<u8> {
    Seq::new(
        REQUEST_LEN as nat,
        |i: int|
            if i < name.len() {
                name[i]
            } else {
                0u8
            },
    )
}

/// A request with the given flags.
pub open spec fn with_flags(request: Seq<u8>, flags: Seq<u8>) -> Seq<u8> {
    request.update(FLAGS_AT as int, flags[0]).update(FLAGS_AT + 1, flags[1])
}

/// Whether `e` is what a name with a NUL byte is refused with.
pub open spec fn refuses_nul(e: NetmuxError) -> bool {
    e matches NetmuxError::Config(text) && text@ == "interface name contains NUL byte"@
}

/// The request for the interface named `name`, without flags. A name with a NUL byte is
/// refused.
pub fn name_request(name: &str) -> (r: Result<[u8; 40]>)
    requires
        encode_utf8(name@).contains(0) || encode_utf8(name@).len() <= REQUEST_LEN,
    ensures
        match r {
            Ok(request) => !encode_utf8(name@).contains(0) && request@ == request_for(
                encode_utf8(name@),
            ),
            Err(e) => encode_utf8(name@).contains(0) && refuses_nul(e),
        },
{
    let bytes = name.as_bytes();
    let mut i: usize = 0;
    while i < bytes.len()
        invariant
            i <= bytes@.len(),
            bytes@ == encode_utf8(name@),
            forall|j: int| 0 <= j < i ==> bytes@[j] != 0,
        decreases bytes@.len() - i,
    {
        if bytes[i] == 0 {
            return Err(NetmuxError::config("interface name contains NUL byte"));
        }
        i = i + 1;
    }
    let mut request: [u8; 40] = [0u8; 40];
    let mut k: usize = 0;
    while k < bytes.len()
        invariant
            k <= bytes@.len() <= REQUEST_LEN,
            forall|j: int| 0 <= j < k ==> request@[j] == bytes@[j],
            forall|j: int| k <= j < REQUEST_LEN ==> request@[j] == 0,
        decreases bytes@.len() - k,
    {
        request[k] = bytes[k];
        k = k + 1;
    }
    assert(request@ =~= request_for(bytes@));
    Ok(request)
}

/// The request to create the TUN device named `name` with the given flags. A name with
/// a NUL byte is refused.
pub fn tun_request(name: &str, flags: [u8; 2]) -> (r: Result<[u8; 40]>)
    requires
        encode_utf8(name@).contains(0) || encode_utf8(name@).len() <= NAME_LEN,
    ensures
        match r {
            Ok(request) => !encode_utf8(name@).contains(0) && request@ == with_flags(
                request_for(encode_utf8(name@)),
                flags@,
            ),
            Err(e) => encode_utf8(name@).contains(0) && refuses_nul(e),
        },
{
    match name_request(name) {
        Ok(request) => {
            let mut r: [u8; 40] = request;
            set_flags(&mut r, flags);
            Ok(r)
        },
        Err(e) => Err(e),
    }
}

/// Puts the given flags into a request.
pub fn set_flags(request: &mut [u8; 40], flags: [u8; 2])
    ensures
        final(request)@ == with_flags(old(request)@, flags@),
{
    request[FLAGS_AT] = flags[0];
    request[FLAGS_AT + 1] = flags[1];
    assert(request@ =~= with_flags(old(request)@, flags@));
}

/// The bytes of the name in a request: what stands before the first NUL byte, or all of
/// the name's room where it holds none.
pub fn assigned_name(request: &[u8; 40]) -> (r: Vec<u8>)
    ensures
        r@.len() <= NAME_LEN,
        r@ == request@.take(r@.len() as int),
        !r@.contains(0),
        r@.len() < NAME_LEN ==> request@[r@.len() as int] == 0,
        r@.len() <= 16,
        r@.len() < 16 ==> request@[r@.len() as int] == 0,
{
    let mut name: Vec<u8> = Vec::new();
    let mut i: usize = 0;
    while i < NAME_LEN && request[i] != 0
        invariant
            i <= NAME_LEN,
            name@ == request@.take(i as int),
            !name@.contains(0),
        decreases NAME_LEN - i,
    {
        let ghost before = name@;
        name.push(request[i]);
        assert(name@ =~= request@.take(i + 1));
        assert(!name@.contains(0)) by {
            if name@.contains(0) {
                let j = name@.index_of(0);
                if j < before.len() {
                    assert(before[j] == 0);
                    assert(before.contains(0));
                }
            }
        }
        i = i + 1;
    }
    name
}

/// The name that was asked for is the name that the request holds.
pub proof fn law_request_keeps_name(name: Seq<u8>, flags: Seq<u8>, r: Seq<u8>)
    requires
        name.len() <= NAME_LEN,
        !name.contains(0),
        flags.len() == 2,
        r.len() <= NAME_LEN,
        r == with_flags(request_for(name), flags).take(r.len() as int),
        !r.contains(0),
        r.len() < NAME_LEN ==> with_flags(request_for(name), flags)[r.len() as int] == 0,
    ensures
        r == name,
{
    let q = with_flags(request_for(name), flags);
    if r.len() < name.len() {
        assert(name[r.len() as int] == 0);
        assert(name.contains(0));
    }
    if r.len() > name.len() {
        assert(r[name.len() as int] == q[name.len() as int]);
        assert(r.contains(0));
    }
    assert(r =~= name);
}

/// A request holds the name in front, zeros behind it, and, once they are set, the two
/// bytes of the flags at offsets 16 and 17.
pub proof fn law_request_bytes(name: Seq<u8>, flags: Seq<u8>, i: int)
    requires
        name.len() <= 40,
        flags.len() == 2,
        0 <= i < 40,
    ensures
        request_for(name).len() == 40,
        with_flags(request_for(name), flags).len() == 40,
        i < name.len() ==> request_for(name)[i] == name[i],
        i >= name.len() ==> request_for(name)[i] == 0,
        i == 16 ==> with_flags(request_for(name), flags)[i] == flags[0],
        i == 17 ==> with_flags(request_for(name), flags)[i] == flags[1],
        i != 16 && i != 17 ==> with_flags(request_for(name), flags)[i] == request_for(name)[i],
{
}

} // verus!
