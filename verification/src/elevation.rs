//! The decisions around running elevated (UAC): whether the token says so, and
//! whether a `runas` relaunch was accepted.
use vstd::prelude::*;

verus! {

/// Whether the process runs elevated: the token could be opened and queried, and its
/// `TokenIsElevated` field is not zero.
pub fn elevated_from_token(token_opened: bool, query_succeeded: bool, token_is_elevated: u32) -> (r:
    bool)
    ensures
        r == (token_opened && query_succeeded && token_is_elevated != 0),
{
    token_opened && query_succeeded && token_is_elevated != 0
}

/// The verb `runas`, NUL-terminated UTF-16, that asks `ShellExecuteW` for elevation.
pub fn runas_verb() -> (r: Vec<u16>)
    ensures
        r@ == seq![0x72u16, 0x75u16, 0x6Eu16, 0x61u16, 0x73u16, 0u16],
{
    let r = vec![0x72u16, 0x75u16, 0x6Eu16, 0x61u16, 0x73u16, 0u16];
    assert(r@ =~= seq![0x72u16, 0x75u16, 0x6Eu16, 0x61u16, 0x73u16, 0u16]);
    r
}

/// `wide` with a terminating 0 appended.
pub fn nul_terminated(wide: Vec<u16>) -> (r: Vec<u16>)
    ensures
        r@ == wide@.push(0u16),
{
    let mut r = wide;
    r.push(0u16);
    r
}

/// The message given when elevation was refused or failed.
pub open spec fn elevation_failed_message() -> Seq<char> {
    "권한 상승이 취소되었거나 실패했습니다."@
}

/// The outcome of `ShellExecuteW`: a returned value above 32 means the relaunch
/// started; anything else (the user cancelled the prompt, or an error) is a failure.
pub fn shell_execute_outcome(code: isize) -> (r: Result<(), String>)
    ensures
        r is Ok <==> code > 32,
        r matches Err(e) ==> e@ == elevation_failed_message(),
{
    if code > 32 {
        Ok(())
    } else {
        Err(String::from_str("권한 상승이 취소되었거나 실패했습니다."))
    }
}

} // verus!
