use vstd::prelude::*;

verus! {

/// `openssl_sys::X509_V_ERR_DEPTH_ZERO_SELF_SIGNED_CERT`, the verification
/// error raised for a self-signed certificate at the head of the chain.
/// Trusted: the crate defines the constant as 18.
#[verifier::external_body]
fn depth_zero_self_signed_cert() -> (code: i32)
    ensures
        code == 18,
{
    openssl_sys::X509_V_ERR_DEPTH_ZERO_SELF_SIGNED_CERT
}

/// Whether the node's certificate is accepted: when OpenSSL's own check
/// passed, or, where self-signed certificates are allowed, when its only
/// complaint is a self-signed certificate at the head of the chain.
pub fn accept_peer_certificate(preverify_ok: bool, error_code: i32, allow_self_signed: bool) -> (b:
    bool)
    ensures
        b == (preverify_ok || (allow_self_signed && error_code == 18)),
{
    if !preverify_ok {
        if allow_self_signed && error_code == depth_zero_self_signed_cert() {
            return true;
        }
        return false;
    }
    true
}

} // verus!
