//! The MD5 digest that signs Last.fm requests, computed by rust-crypto.
use vstd::prelude::*;
use crypto::digest::Digest;
use crypto::md5::Md5;

verus! {

#[verifier::external_type_specification]
#[verifier::external_body]
pub struct ExMd5(Md5);

/// The bytes that an MD5 hasher has taken in so far.
pub uninterp spec fn md5_message(h: Md5) -> Seq<u8>;

/// Whether an MD5 hasher has produced its digest (and takes no more input).
pub uninterp spec fn md5_finished(h: Md5) -> bool;

/// The MD5 digest of `message`, written as lowercase hexadecimal text, as
/// rust-crypto's `Digest::result_str` writes it.
pub uninterp spec fn md5_hex_digest(message: Seq<u8>) -> Seq<char>;

/// A lowercase hexadecimal digit.
pub open spec fn is_lower_hex(c: char) -> bool {
    ('0' <= c && c <= '9') || ('a' <= c && c <= 'f')
}

/// `Md5::new`: a hasher that has taken in nothing and is not finished.
pub assume_specification[ Md5::new ]() -> (h: Md5)
    ensures
        md5_message(h) == Seq::<u8>::empty(),
        !md5_finished(h),
;

/// Calls `Digest::input` of rust-crypto's `Md5`, which appends `data` to what
/// the hasher has taken in. The source asserts that the hasher is not finished,
/// which `requires` demands.
#[verifier::external_body]
pub(crate) fn md5_input(h: &mut Md5, data: &[u8])
    requires
        !md5_finished(*old(h)),
    ensures
        md5_message(*final(h)) == md5_message(*old(h)) + data@,
        !md5_finished(*final(h)),
{
    h.input(data);
}

/// Calls `Digest::result_str` of rust-crypto's `Md5`. The contract claims that
/// the text is `md5_hex_digest` of what the hasher took in, a function of those
/// bytes alone, and, as the source shows (a 128-bit output written by
/// rustc-serialize's `to_hex` with the digits `0123456789abcdef`), that it has
/// 32 lowercase hexadecimal digits; the hasher is then finished.
#[verifier::external_body]
pub(crate) fn md5_result_str(h: &mut Md5) -> (digest: String)
    ensures
        digest@ == md5_hex_digest(md5_message(*old(h))),
        digest@.len() == 32,
        forall|i: int| 0 <= i < 32 ==> is_lower_hex(#[trigger] digest@[i]),
        md5_message(*final(h)) == md5_message(*old(h)),
        md5_finished(*final(h)),
{
    h.result_str()
}

/// The MD5 digest of `message` as lowercase hexadecimal text.
pub(crate) fn md5_hex(message: &[u8]) -> (digest: String)
    ensures
        digest@ == md5_hex_digest(message@),
        digest@.len() == 32,
        forall|i: int| 0 <= i < 32 ==> is_lower_hex(#[trigger] digest@[i]),
{
    let mut hasher = Md5::new();
    md5_input(&mut hasher, message);
    assert(Seq::<u8>::empty() + message@ =~= message@);
    md5_result_str(&mut hasher)
}

} // verus!
