//! Constants and enumerations of the reduction library.

use vstd::prelude::*;

pub mod lll_flags;
pub mod svp_flags;
pub mod bkz_flags;

verus! {

pub const SIZE_RED_FAILURE_THRESH: i64 = 5;
pub const MAX_EXP_DOUBLE: i64 = 1000;
pub const PREC_DOUBLE: u32 = 53;
pub const CPU_SIZE_1: i64 = 53;
pub const BKZ_DEF_AUTO_ABORT_MAX_NO_DEC: i32 = 5;
pub const BKZ_DEF_RERANDOMIZATION_DENSITY: i32 = 3;

/// The outcome of a reduction.
#[derive(Debug, Clone, Copy, PartialEq, Eq)]
pub enum RedStatus {
    Success,
    GsoFailure,
    BabaiFailure,
    LllFailure,
    EnumFailure,
    BkzFailure,
    BkzTimeLimit,
    BkzLoopsLimit,
    HlllFailure,
    HlllNormFailure,
    HlllSrFailure,
}

/// The numeric code of a status.
pub open spec fn status_code(s: RedStatus) -> int {
    match s {
        RedStatus::Success => 0,
        RedStatus::GsoFailure => 2,
        RedStatus::BabaiFailure => 3,
        RedStatus::LllFailure => 4,
        RedStatus::EnumFailure => 5,
        RedStatus::BkzFailure => 6,
        RedStatus::BkzTimeLimit => 7,
        RedStatus::BkzLoopsLimit => 8,
        RedStatus::HlllFailure => 9,
        RedStatus::HlllNormFailure => 10,
        RedStatus::HlllSrFailure => 11,
    }
}

/// The message of a status code; "(unknown)" for a code that no status has.
pub open spec fn status_message(code: int) -> Seq<char> {
    if code == 0 {
        "success"@
    } else if code == 2 {
        "infinite number in GSO"@
    } else if code == 3 {
        "infinite loop in babai"@
    } else if code == 4 {
        "infinite loop in LLL"@
    } else if code == 5 {
        "error in SVP solver"@
    } else if code == 6 {
        "error in BKZ"@
    } else if code == 7 {
        "time limit exceeded in BKZ"@
    } else if code == 8 {
        "loops limit exceeded in BKZ"@
    } else if code == 9 {
        "error in HLLL"@
    } else if code == 10 {
        "increase of the norm"@
    } else if code == 11 {
        "error in weak size reduction"@
    } else {
        "(unknown)"@
    }
}

impl RedStatus {
    /// The numeric code of the status.
    pub fn code(self) -> (r: i32)
        ensures
            r == status_code(self),
    {
        match self {
            RedStatus::Success => 0,
            RedStatus::GsoFailure => 2,
            RedStatus::BabaiFailure => 3,
            RedStatus::LllFailure => 4,
            RedStatus::EnumFailure => 5,
            RedStatus::BkzFailure => 6,
            RedStatus::BkzTimeLimit => 7,
            RedStatus::BkzLoopsLimit => 8,
            RedStatus::HlllFailure => 9,
            RedStatus::HlllNormFailure => 10,
            RedStatus::HlllSrFailure => 11,
        }
    }

    /// The message of the status.
    pub fn as_str(self) -> (r: &'static str)
        ensures
            r@ == status_message(status_code(self)),
    {
        match self {
            RedStatus::Success => "success",
            RedStatus::GsoFailure => "infinite number in GSO",
            RedStatus::BabaiFailure => "infinite loop in babai",
            RedStatus::LllFailure => "infinite loop in LLL",
            RedStatus::EnumFailure => "error in SVP solver",
            RedStatus::BkzFailure => "error in BKZ",
            RedStatus::BkzTimeLimit => "time limit exceeded in BKZ",
            RedStatus::BkzLoopsLimit => "loops limit exceeded in BKZ",
            RedStatus::HlllFailure => "error in HLLL",
            RedStatus::HlllNormFailure => "increase of the norm",
            RedStatus::HlllSrFailure => "error in weak size reduction",
        }
    }
}

/// Distinct statuses have distinct codes, and no status has a code whose
/// message is the one for unknown codes.
pub proof fn lemma_status_codes_distinct(s: RedStatus, t: RedStatus)
    ensures
        s != t ==> status_code(s) != status_code(t),
        status_message(status_code(s)) != "(unknown)"@,
{
    reveal_strlit("(unknown)");
    reveal_strlit("success");
    reveal_strlit("infinite number in GSO");
    reveal_strlit("infinite loop in babai");
    reveal_strlit("infinite loop in LLL");
    reveal_strlit("error in SVP solver");
    reveal_strlit("error in BKZ");
    reveal_strlit("time limit exceeded in BKZ");
    reveal_strlit("loops limit exceeded in BKZ");
    reveal_strlit("error in HLLL");
    reveal_strlit("increase of the norm");
    reveal_strlit("error in weak size reduction");
    assert(status_message(status_code(s))[0] != "(unknown)"@[0]);
}

/// The message that `get_red_status_str` gives for the code of a status is
/// the one `RedStatus::as_str` gives for the status.
pub proof fn lemma_status_message_of_code(s: RedStatus)
    ensures
        i32::MIN <= status_code(s) <= i32::MAX,
        status_message((status_code(s) as i32) as int) == status_message(status_code(s)),
{
}

#[derive(Debug, Clone, Copy, PartialEq, Eq)]
pub enum LllMethod {
    Wrapper,
    Proved,
    Heuristic,
    Fast,
}

#[derive(Debug, Clone, Copy, PartialEq, Eq)]
pub enum FloatType {
    Default,
    Double,
    LongDouble,
    Dpe,
    Dd,
    Qd,
    Mpfr,
}

#[derive(Debug, Clone, Copy, PartialEq, Eq)]
pub enum IntType {
    Mpz,
    Long,
    Double,
}

/// How the shortest-vector search bounds its radius.
#[derive(Debug, Clone, Copy, PartialEq, Eq)]
pub enum SvpMethod {
    Fast,
    Proved,
}

/// The numeric code of a shortest-vector method.
pub open spec fn svp_method_code(m: SvpMethod) -> int {
    match m {
        SvpMethod::Fast => 0,
        SvpMethod::Proved => 2,
    }
}

impl SvpMethod {
    /// The numeric code of the method.
    pub fn code(self) -> (r: i32)
        ensures
            r == svp_method_code(self),
    {
        match self {
            SvpMethod::Fast => 0,
            SvpMethod::Proved => 2,
        }
    }
}

/// How the closest-vector search bounds its radius.
#[derive(Debug, Clone, Copy, PartialEq, Eq)]
pub enum CvpMethod {
    Fast,
    Proved,
}

/// The numeric code of a closest-vector method.
pub open spec fn cvp_method_code(m: CvpMethod) -> int {
    match m {
        CvpMethod::Fast => 0,
        CvpMethod::Proved => 2,
    }
}

impl CvpMethod {
    /// The numeric code of the method.
    pub fn code(self) -> (r: i32)
        ensures
            r == cvp_method_code(self),
    {
        match self {
            CvpMethod::Fast => 0,
            CvpMethod::Proved => 2,
        }
    }
}

} // verus!
