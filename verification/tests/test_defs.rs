//! Checks of the status codes and messages and of the vector helper.

use fplll::defs::{bkz_flags, lll_flags, svp_flags, CvpMethod, RedStatus, SvpMethod, PREC_DOUBLE};
use fplll::util::{extend_vec, get_red_status_str};

#[test]
fn status_messages_agree() {
    let all = [
        RedStatus::Success,
        RedStatus::GsoFailure,
        RedStatus::BabaiFailure,
        RedStatus::LllFailure,
        RedStatus::EnumFailure,
        RedStatus::BkzFailure,
        RedStatus::BkzTimeLimit,
        RedStatus::BkzLoopsLimit,
        RedStatus::HlllFailure,
        RedStatus::HlllNormFailure,
        RedStatus::HlllSrFailure,
    ];
    for s in all {
        assert_eq!(get_red_status_str(s.code()), s.as_str());
        assert_ne!(s.as_str(), "(unknown)");
    }
    assert_eq!(RedStatus::Success.as_str(), "success");
    assert_eq!(RedStatus::HlllSrFailure.code(), 11);
    assert_eq!(get_red_status_str(4), "infinite loop in LLL");
    assert_eq!(get_red_status_str(1), "(unknown)");
    assert_eq!(get_red_status_str(-3), "(unknown)");
}

#[test]
fn flag_values() {
    assert_eq!(lll_flags::SIEGEL, 4);
    assert_eq!(svp_flags::DUAL, 4);
    assert_eq!(bkz_flags::SLD_RED, 0x200);
    assert_eq!(PREC_DOUBLE, 53);
}

#[test]
fn extend_vec_grows_only() {
    let mut v = vec![1, 2];
    extend_vec(&mut v, 4);
    assert_eq!(v, vec![1, 2, 0, 0]);
    extend_vec(&mut v, 1);
    assert_eq!(v, vec![1, 2, 0, 0]);
}

#[test]
fn method_codes() {
    assert_eq!(SvpMethod::Fast.code(), 0);
    assert_eq!(SvpMethod::Proved.code(), 2);
    assert_eq!(CvpMethod::Fast.code(), 0);
    assert_eq!(CvpMethod::Proved.code(), 2);
}
