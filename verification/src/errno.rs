//! The errno vocabulary of `U` and `E` rows.
//!
//! The numeric codes are the platform's own, taken from `libc`; only the
//! codes this tool names by spelling are listed here.
use vstd::prelude::*;
use crate::text::{signed_decimal, signed_decimal_string};

verus! {

/// The errno constants this tool names.
#[derive(Debug, Clone, Copy, PartialEq, Eq, Structural)]
pub enum Errno {
    Eacces,
    Eperm,
    Enoent,
    Esrch,
    Eio,
    Einval,
    Enotsup,
    Eoverflow,
}

/// The platform's numeric value of an errno constant, as `libc` defines it
/// for the target being built.
pub uninterp spec fn platform_errno(which: Errno) -> i32;

/// The numeric value of an errno constant.
///
/// Reads `libc::EACCES`, `libc::EPERM`, `libc::ENOENT`, `libc::ESRCH`,
/// `libc::EIO`, `libc::EINVAL`, `libc::ENOTSUP` or `libc::EOVERFLOW`. The
/// values differ between targets, so the contract only names them; on
/// every target libc gives these eight constants eight different values,
/// which the second clause states.
#[verifier::external_body]
pub(crate) fn errno_code(which: Errno) -> (code: i32)
    ensures
        code == platform_errno(which),
        forall|other: Errno| other != which ==> code != #[trigger] platform_errno(other),
{
    match which {
        Errno::Eacces => libc::EACCES,
        Errno::Eperm => libc::EPERM,
        Errno::Enoent => libc::ENOENT,
        Errno::Esrch => libc::ESRCH,
        Errno::Eio => libc::EIO,
        Errno::Einval => libc::EINVAL,
        Errno::Enotsup => libc::ENOTSUP,
        Errno::Eoverflow => libc::EOVERFLOW,
    }
}

/// How a row spells an errno: the names of the seven codes this tool
/// reports by name (checked in this order), otherwise the number in decimal.
pub open spec fn errno_spelling(err: i32) -> Seq<char> {
    if err == platform_errno(Errno::Eacces) {
        "EACCES"@
    } else if err == platform_errno(Errno::Eperm) {
        "EPERM"@
    } else if err == platform_errno(Errno::Enoent) {
        "ENOENT"@
    } else if err == platform_errno(Errno::Esrch) {
        "ESRCH"@
    } else if err == platform_errno(Errno::Eio) {
        "EIO"@
    } else if err == platform_errno(Errno::Einval) {
        "EINVAL"@
    } else if err == platform_errno(Errno::Enotsup) {
        "ENOTSUP"@
    } else {
        signed_decimal(err as int)
    }
}

/// How a row spells the code libc names `which`: its name for the seven
/// codes reported by name, the number in decimal for the others.
pub open spec fn errno_word(which: Errno) -> Seq<char> {
    match which {
        Errno::Eacces => "EACCES"@,
        Errno::Eperm => "EPERM"@,
        Errno::Enoent => "ENOENT"@,
        Errno::Esrch => "ESRCH"@,
        Errno::Eio => "EIO"@,
        Errno::Einval => "EINVAL"@,
        Errno::Enotsup => "ENOTSUP"@,
        Errno::Eoverflow => signed_decimal(platform_errno(Errno::Eoverflow) as int),
    }
}

/// The spelling of an errno in a `U` or `E` row.
pub fn errno_name(err: i32) -> (name: String)
    ensures
        name@ == errno_spelling(err),
        forall|which: Errno| err == platform_errno(which) ==> name@ == #[trigger] errno_word(which),
{
    if err == errno_code(Errno::Eacces) {
        String::from_str("EACCES")
    } else if err == errno_code(Errno::Eperm) {
        String::from_str("EPERM")
    } else if err == errno_code(Errno::Enoent) {
        String::from_str("ENOENT")
    } else if err == errno_code(Errno::Esrch) {
        String::from_str("ESRCH")
    } else if err == errno_code(Errno::Eio) {
        String::from_str("EIO")
    } else if err == errno_code(Errno::Einval) {
        String::from_str("EINVAL")
    } else if err == errno_code(Errno::Enotsup) {
        String::from_str("ENOTSUP")
    } else {
        signed_decimal_string(err as i64)
    }
}

} // verus!
