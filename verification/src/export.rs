//! Names of exported game files.
use vstd::prelude::*;

verus! {

/// The MD5 digest of some bytes: sixteen bytes.
pub uninterp spec fn md5_digest(data: Seq<u8>) -> Seq<u8>;

/// `md5::compute` hashes the bytes with MD5; its digest is a function of the bytes alone
/// and is named `md5_digest`.
#[verifier::external_body]
fn md5_compute(data: &[u8]) -> (r: [u8; 16])
    ensures
        r@ == md5_digest(data@),
{
    md5::compute(data).0
}

/// The lower-case hexadecimal digits.
pub open spec fn hex_digits() -> Seq<char> {
    seq!['0', '1', '2', '3', '4', '5', '6', '7', '8', '9', 'a', 'b', 'c', 'd', 'e', 'f']
}

/// Two lower-case hexadecimal digits for a byte, the high one first.
pub open spec fn byte_hex(b: u8) -> Seq<char> {
    seq![hex_digits()[(b / 16) as int], hex_digits()[(b % 16) as int]]
}

/// The lower-case hexadecimal text of some bytes, two digits per byte.
pub open spec fn hex_of(bytes: Seq<u8>) -> Seq<char>
    decreases bytes.len(),
{
    if bytes.len() == 0 {
        Seq::empty()
    } else {
        hex_of(bytes.drop_last()) + byte_hex(bytes.last())
    }
}

/// The name of the file a game is exported to: the first sixteen hexadecimal digits of
/// the digest of its text, then `.xo`.
pub open spec fn export_name(digest: Seq<u8>) -> Seq<char> {
    hex_of(digest.take(8)) + ".xo"@
}

/// One hexadecimal digit.
fn hex_digit(n: u8) -> (r: &'static str)
    requires
        n < 16,
    ensures
        r@ == seq![hex_digits()[n as int]],
{
    match n {
        0 => { proof { reveal_strlit("0"); } "0" },
        1 => { proof { reveal_strlit("1"); } "1" },
        2 => { proof { reveal_strlit("2"); } "2" },
        3 => { proof { reveal_strlit("3"); } "3" },
        4 => { proof { reveal_strlit("4"); } "4" },
        5 => { proof { reveal_strlit("5"); } "5" },
        6 => { proof { reveal_strlit("6"); } "6" },
        7 => { proof { reveal_strlit("7"); } "7" },
        8 => { proof { reveal_strlit("8"); } "8" },
        9 => { proof { reveal_strlit("9"); } "9" },
        10 => { proof { reveal_strlit("a"); } "a" },
        11 => { proof { reveal_strlit("b"); } "b" },
        12 => { proof { reveal_strlit("c"); } "c" },
        13 => { proof { reveal_strlit("d"); } "d" },
        14 => { proof { reveal_strlit("e"); } "e" },
        _ => { proof { reveal_strlit("f"); } "f" },
    }
}

/// The export file name for a game whose text has the given digest.
pub fn export_name_of_digest(digest: &[u8; 16]) -> (r: String)
    ensures
        r@ == export_name(digest@),
{
    let mut out = String::new();
    for i in 0..8
        invariant
            digest@.len() == 16,
            out@ == hex_of(digest@.take(i as int)),
    {
        let b = digest[i];
        out.append(hex_digit(b / 16));
        out.append(hex_digit(b % 16));
        proof {
            assert(digest@.take(i + 1).drop_last() =~= digest@.take(i as int));
            assert(digest@.take(i + 1).last() == b);
        }
    }
    out.append(".xo");
    out
}

/// The export file name for a game with the given text: the first sixteen hexadecimal
/// digits of its MD5 digest, then `.xo`.
pub fn export_file_name(serial: &[u8]) -> (r: String)
    ensures
        r@ == export_name(md5_digest(serial@)),
{
    let d = md5_compute(serial);
    export_name_of_digest(&d)
}

} // verus!
