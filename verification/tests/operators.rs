use adsb_radar::operators::operator_for;

#[test]
fn airlines_match_flight_shape() {
    assert_eq!(operator_for(Some("UAL1381"), false).as_deref(), Some("United Airlines"));
    assert_eq!(operator_for(Some("aal2867"), false).as_deref(), Some("American Airlines"));
}

#[test]
fn bare_tail_is_not_an_airline() {
    assert_eq!(operator_for(Some("N4872D"), false), None);
}

#[test]
fn military_callsign_and_flag_fallback() {
    assert_eq!(operator_for(Some("RCH285"), true).as_deref(), Some("USAF · Air Mobility"));
    assert_eq!(operator_for(Some("BONE21"), true).as_deref(), Some("Military"));
    assert_eq!(operator_for(Some(""), true).as_deref(), Some("Military"));
    assert_eq!(operator_for(None, false), None);
}

#[test]
fn operator_needs_the_whole_leading_word() {
    // Five letters are no designator, and three letters need a digit behind them.
    assert_eq!(operator_for(Some("UALXX1"), false), None);
    assert_eq!(operator_for(Some("UAL"), false), None);
    assert_eq!(operator_for(Some("UAL-1"), false), None);
    // A military word needs no digit.
    assert_eq!(operator_for(Some("SPAR"), false).as_deref(), Some("USAF · Special Air Mission"));
    assert_eq!(operator_for(Some("  amx12 "), false).as_deref(), Some("Aeroméxico"));
    assert_eq!(operator_for(Some("XOJ700"), false).as_deref(), Some("XOJET"));
    assert_eq!(operator_for(Some("GRZLY1"), false).as_deref(), Some("US Military"));
}
