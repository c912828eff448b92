use vstd::prelude::*;

verus! {

/// Value of one lowercase hexadecimal digit.
pub open spec fn hex_digit_char(v: u8) -> char
    recommends
        v < 16,
{
    if v == 0 {
        '0'
    } else if v == 1 {
        '1'
    } else if v == 2 {
        '2'
    } else if v == 3 {
        '3'
    } else if v == 4 {
        '4'
    } else if v == 5 {
        '5'
    } else if v == 6 {
        '6'
    } else if v == 7 {
        '7'
    } else if v == 8 {
        '8'
    } else if v == 9 {
        '9'
    } else if v == 10 {
        'a'
    } else if v == 11 {
        'b'
    } else if v == 12 {
        'c'
    } else if v == 13 {
        'd'
    } else if v == 14 {
        'e'
    } else {
        'f'
    }
}

/// Lowercase hexadecimal encoding: two digits for each byte, high nibble first.
pub open spec fn spec_hex_lower(bytes: Seq<u8>) -> Seq<char>
    decreases bytes.len(),
{
    if bytes.len() == 0 {
        Seq::<char>::empty()
    } else {
        seq![hex_digit_char(bytes[0] / 16), hex_digit_char(bytes[0] % 16)] + spec_hex_lower(
            bytes.drop_first(),
        )
    }
}

/// The 16-byte MD5 digest of a byte sequence. The digest is a function of the
/// input alone; its definition is delegated to the md5 crate.
pub uninterp spec fn md5_of(bytes: Seq<u8>) -> Seq<u8>;

/// Relies on md5::compute: returns the 16-byte MD5 digest of the input.
#[verifier::external_body]
fn md5_digest(data: &[u8]) -> (r: Vec<u8>)
    ensures
        r@ == md5_of(data@),
        r@.len() == 16,
{
    md5::compute(data).0.to_vec()
}

/// Relies on hex_simd::encode_to_string with AsciiCase::Lower: lowercase
/// hexadecimal, two digits for each byte, high nibble first.
#[verifier::external_body]
pub fn hex(input: &[u8]) -> (r: String)
    ensures
        r@ == spec_hex_lower(input@),
{
    hex_simd::encode_to_string(input, hex_simd::AsciiCase::Lower)
}

/// The ETag of a body: lowercase hex of its MD5 digest.
pub open spec fn spec_etag(bytes: Seq<u8>) -> Seq<char> {
    spec_hex_lower(md5_of(bytes))
}

/// Computes the ETag of a byte slice: lowercase hex of its MD5 digest.
pub fn md5_hex(data: &[u8]) -> (r: String)
    ensures
        r@ == spec_etag(data@),
{
    let digest = md5_digest(data);
    hex(digest.as_slice())
}

} // verus!
