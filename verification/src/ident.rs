//! The agent's identity: a fingerprint of the host, computed once at
//! startup from the platform release and the hostname.

use vstd::prelude::*;

verus! {

/// The error sys_info reports when the platform cannot be queried.
#[verifier::external_type_specification]
#[verifier::external_body]
pub struct ExSysInfoError(sys_info::Error);

/// Relies on sys_info::hostname: the machine's hostname, as the platform
/// reports it.
#[verifier::external_body]
pub fn get_hostname() -> Result<String, sys_info::Error> {
    sys_info::hostname()
}

/// Relies on sys_info::os_release: the platform's release string.
#[verifier::external_body]
pub fn get_os_release() -> Result<String, sys_info::Error> {
    sys_info::os_release()
}

/// The lowercase hex form of the md5 digest of a text: thirty-two hex
/// digits, a function of the text alone.
pub uninterp spec fn md5_hex_of(s: Seq<char>) -> Seq<char>;

/// Relies on md5::compute and its digest's LowerHex form: sixteen bytes,
/// written as two lowercase hex digits each.
#[verifier::external_body]
fn md5_hex(input: &str) -> (r: String)
    ensures
        r@ == md5_hex_of(input@),
        r@.len() == 32,
{
    format!("{:x}", md5::compute(input.as_bytes()))
}

/// The fingerprint of a platform release and hostname pair: the digest of
/// the two joined by a dash.
pub fn hash_of_identity(os: &str, host: &str) -> (r: String)
    ensures
        r@ == md5_hex_of(os@ + seq!['-'] + host@),
        r@.len() == 32,
{
    let dash = "-";
    proof {
        reveal_strlit("-");
        assert(dash@ =~= seq!['-']);
    }
    let mut input = String::new();
    input.append(os);
    input.append(dash);
    input.append(host);
    proof {
        assert(input@ =~= os@ + seq!['-'] + host@);
    }
    md5_hex(input.as_str())
}

/// The agent's identity: the fingerprint of this host, or the platform's
/// error when it cannot be queried.
pub fn get_hash() -> (r: Result<String, sys_info::Error>)
    ensures
        r is Ok ==> r.unwrap()@.len() == 32,
{
    let os = match get_os_release() {
        Ok(s) => s,
        Err(e) => {
            return Err(e);
        },
    };
    let host = match get_hostname() {
        Ok(s) => s,
        Err(e) => {
            return Err(e);
        },
    };
    Ok(hash_of_identity(os.as_str(), host.as_str()))
}

} // verus!
