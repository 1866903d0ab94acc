//! Compatibility of versions: a plugin is admitted only if the version at
//! hand satisfies the version that is asked for.

use crate::diag::{
    error_buffer, expand, format_error, room, texts, Error, ErrorView, SourceInfo,
    ERR_INCOMPATIBLE_VERSION,
};
use crate::text::{decimal, decimal_string, truncated};
use vstd::prelude::*;

verus! {

/// A semantic version. `exact` says, of a version that is asked for, that no
/// other version will do. The postfix takes no part in the comparison.
#[derive(Debug)]
pub struct SemVer {
    pub major: u16,
    pub minor: u16,
    pub patch: u16,
    pub postfix: String,
    pub exact: bool,
}

/// Whether a plugin of version `have` may be used where `want` is asked
/// for: an exact wish asks for the same major, minor and patch numbers; any
/// other asks for the same major number and a minor number that is no
/// smaller, whatever the patch number.
pub open spec fn compatible(have: SemVer, want: SemVer) -> bool {
    if want.exact {
        have.major == want.major && have.minor == want.minor && have.patch == want.patch
    } else {
        have.major == want.major && have.minor >= want.minor
    }
}

/// Every version satisfies itself.
pub proof fn lemma_compatible_with_itself(v: SemVer)
    ensures
        compatible(v, v),
{
}

/// Compatibility carries over to wishes that are not exact: what satisfies
/// a version satisfies every such wish that this version satisfies.
pub proof fn lemma_compatible_chain(a: SemVer, b: SemVer, c: SemVer)
    requires
        compatible(a, b),
        compatible(b, c),
        !c.exact,
    ensures
        compatible(a, c),
{
}

impl SemVer {
    /// The version `major.minor.patch` with the postfix `postfix`.
    pub fn new(major: u16, minor: u16, patch: u16, postfix: &str, exact: bool) -> (r: SemVer)
        ensures
            r.major == major,
            r.minor == minor,
            r.patch == patch,
            r.postfix@ == postfix@,
            r.exact == exact,
    {
        SemVer { major, minor, patch, postfix: postfix.to_owned(), exact }
    }
}

/// Whether a plugin of version `have` may be used where `want` is asked for.
pub fn is_compatible(have: &SemVer, want: &SemVer) -> (b: bool)
    ensures
        b == compatible(*have, *want),
{
    if want.exact {
        have.major == want.major && have.minor == want.minor && have.patch == want.patch
    } else {
        have.major == want.major && have.minor >= want.minor
    }
}

/// The numbers of `have` and of `want`, as the message of a mismatch names
/// them.
pub open spec fn mismatch_args(have: SemVer, want: SemVer) -> Seq<Seq<char>> {
    seq![
        decimal(have.major as nat),
        decimal(have.minor as nat),
        decimal(have.patch as nat),
        decimal(want.major as nat),
        decimal(want.minor as nat),
        decimal(want.patch as nat),
    ]
}

/// The error that reports that `have` does not satisfy `want`.
pub open spec fn mismatch(have: SemVer, want: SemVer, capacity: u16) -> ErrorView {
    ErrorView {
        extra_data: 0,
        file_name: Seq::empty(),
        line: 0,
        error_code: ERR_INCOMPATIBLE_VERSION,
        capacity,
        reason: truncated(
            expand("version {}.{}.{} does not satisfy {}.{}.{}"@, mismatch_args(have, want)),
            room(capacity),
        ),
    }
}

/// Admits a plugin of version `have` where `want` is asked for, or reports
/// the mismatch as an error of its own kind in a buffer of `error_capacity`
/// bytes.
pub fn check_compatible(have: &SemVer, want: &SemVer, error_capacity: u16) -> (r: Result<
    (),
    Error,
>)
    ensures
        compatible(*have, *want) ==> r is Ok,
        !compatible(*have, *want) ==> (r matches Err(e) && e@ == mismatch(
            *have,
            *want,
            error_capacity,
        )),
{
    if is_compatible(have, want) {
        return Ok(());
    }
    let mut args: Vec<String> = Vec::new();
    args.push(decimal_string(have.major));
    args.push(decimal_string(have.minor));
    args.push(decimal_string(have.patch));
    args.push(decimal_string(want.major));
    args.push(decimal_string(want.minor));
    args.push(decimal_string(want.patch));
    assert(texts(args@) =~= mismatch_args(*have, *want));
    let mut error = error_buffer(error_capacity);
    format_error(
        &mut error,
        ERR_INCOMPATIBLE_VERSION,
        SourceInfo::unknown(),
        0,
        "version {}.{}.{} does not satisfy {}.{}.{}",
        &args,
    );
    Err(error)
}

} // verus!
