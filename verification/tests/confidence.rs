use queueing_system::confidence::get_confidence;
use queueing_system::types::ConfidenceLevel;

#[test]
fn standard_is_ninety_five_percent() {
    assert_eq!(get_confidence("Standard"), Ok(ConfidenceLevel::Medium));
}

#[test]
fn high_and_very_high_levels() {
    assert_eq!(get_confidence("High"), Ok(ConfidenceLevel::High));
    assert_eq!(get_confidence("Very High"), Ok(ConfidenceLevel::VeryHigh));
}

#[test]
fn unknown_level_is_refused() {
    assert_eq!(get_confidence("Low"), Err("Invalid confidence level"));
    assert_eq!(get_confidence(""), Err("Invalid confidence level"));
    assert_eq!(get_confidence("high"), Err("Invalid confidence level"));
    assert_eq!(get_confidence("Very High "), Err("Invalid confidence level"));
}

#[test]
fn margins_per_mille() {
    assert_eq!(ConfidenceLevel::Low.margin_per_mille(), 100);
    assert_eq!(ConfidenceLevel::Medium.margin_per_mille(), 50);
    assert_eq!(ConfidenceLevel::High.margin_per_mille(), 10);
    assert_eq!(ConfidenceLevel::VeryHigh.margin_per_mille(), 1);
}
