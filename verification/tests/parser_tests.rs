use rand::Rng;

use save_retention::parser::{character_name, package_details, save_number, save_type};
use save_retention::program_errors::ProgramError;
use save_retention::save_information::SaveInformation;
use save_retention::save_type::SaveType;

#[test]
fn package_values_returned() {
    let rand = rand::thread_rng().gen_range(u16::MIN..=u16::MAX);
    let test_save = format!("Some'me-1231415123_QuickSave_{}", rand);

    let expected = SaveInformation::new(
        test_save.clone(),
        "Some'me".to_string(),
        SaveType::Quick,
        rand,
    );

    let result = package_details(test_save.as_str()).unwrap();
    assert_eq!(result, expected);
}

#[test]
fn errors_out_when_error_state_occurs() {
    let test_save = "Some'me";

    let result = package_details(test_save);
    assert!(
        result.is_err(),
        "Package did not error when it was provided insufficient information"
    );
}

#[test]
fn detect_quick_save() {
    let test_save_type: &str = "QuickSave";
    let save = format!("Some Name-1231415123_{}_277", test_save_type);

    let save_type = save_type(save.as_str());
    assert_eq!(save_type, SaveType::Quick);
}

#[test]
fn detect_auto_save() {
    let test_save_type: &str = "AutoSave";
    let save = format!("Some Name-1231415123_{}_277", test_save_type);

    let save_type = save_type(save.as_str());
    assert_eq!(save_type, SaveType::Auto);
}

#[test]
fn detect_unrecognized() {
    let save = "Some Name-ManualSave";

    let save_type = save_type(save);
    assert_eq!(save_type, SaveType::Unrecognized);
}

#[test]
fn detect_with_space() {
    let test_save = "Some Name-1231415123_{}_277";
    let expected = "Some Name";

    let name = character_name(test_save).unwrap();
    assert_eq!(name, expected);
}

#[test]
fn detect_with_underscore() {
    let test_save = "Some_Name-1231415123_{}_277";
    let expected = "Some_Name";

    let name = character_name(test_save).unwrap();
    assert_eq!(name, expected);
}

#[test]
fn detect_single_name() {
    let test_save = "SomeName-1231415123_{}_277";
    let expected = "SomeName";

    let name = character_name(test_save).unwrap();
    assert_eq!(name, expected);
}

#[test]
fn detect_with_apostrophe() {
    let test_save = "Some'me-1231415123_{}_277";
    let expected = "Some'me";

    let name = character_name(test_save).unwrap();
    assert_eq!(name, expected);
}

#[test]
fn error_when_no_dashes() {
    let test_save = "Some'me";
    let expected = ProgramError::NameNotDetected("Could not detect character name".to_string());

    let error = character_name(test_save).unwrap_err();
    assert_eq!(error, expected);
}

#[test]
fn convert_max_number() {
    let test_save = format!("Some'me-1231415123_QuickSave_{}", u16::MAX);

    let result = save_number(&test_save).unwrap();
    assert_eq!(result, u16::MAX);
}

#[test]
fn convert_minimum_number() {
    let test_save = format!("Some'me-1231415123_QuickSave_{}", u16::MIN);

    let result = save_number(&test_save).unwrap();
    assert_eq!(result, u16::MIN);
}

#[test]
fn convert_random_number() {
    let random_u16: u16 = rand::thread_rng().gen_range(1..u16::MAX); // Ignore min and max as that is explicitly tested.
    let test_save = format!("Some'me-1231415123_QuickSave_{}", random_u16);

    let result = save_number(&test_save).unwrap();
    assert_eq!(result, random_u16);
}

#[test]
fn error_on_negative_number() {
    let test_save = format!("Some'me-1231415123_QuickSave_{}", -22);
    let expected = ProgramError::StringNotNumber("invalid digit found in string".to_string());

    let result = save_number(&test_save).unwrap_err();
    assert_eq!(result, expected);
}

#[test]
fn error_when_no_underscores() {
    let test_save = "Some'me";
    let expected = ProgramError::NotEnoughUnderscores(
        "Did not find the correct number of underscores. Cannot continue with this save."
            .to_string(),
    );

    let result = save_number(test_save).unwrap_err();
    assert_eq!(result, expected);
}

// ---------------------------------------------------------------------------
// Further parser behaviour
// ---------------------------------------------------------------------------
#[test]
fn category_prefers_quicksave_over_autosave() {
    // substring detection is position-independent and checks quicksave first
    assert_eq!(save_type("AutoSaveQuickSave_x_5"), SaveType::Quick);
    assert_eq!(save_type("A-QuickSaveAutoSave_5"), SaveType::Quick);
}

#[test]
fn category_ignores_letter_case() {
    assert_eq!(save_type("Name-1_qUiCkSaVe_3"), SaveType::Quick);
    assert_eq!(save_type("Name-1_AUTOSAVE_3"), SaveType::Auto);
}

#[test]
fn category_only_one_substring_present() {
    // where only one of the two substrings occurs, the other never matches
    assert_eq!(save_type("Name-1_autosave_3"), SaveType::Auto);
    assert_eq!(save_type("Name-1_quicksave_3"), SaveType::Quick);
    assert_eq!(save_type("Name-1_manual_3"), SaveType::Unrecognized);
}

#[test]
fn accepts_leading_plus_sign() {
    let result = save_number("Some'me-1_QuickSave_+277").unwrap();
    assert_eq!(result, 277);
}

#[test]
fn error_on_overflowing_number() {
    let expected =
        ProgramError::StringNotNumber("number too large to fit in target type".to_string());
    let result = save_number("Some'me-1_QuickSave_65536").unwrap_err();
    assert_eq!(result, expected);
}

#[test]
fn error_on_empty_number_segment() {
    let expected =
        ProgramError::StringNotNumber("cannot parse integer from empty string".to_string());
    let result = save_number("Some'me-1_QuickSave_").unwrap_err();
    assert_eq!(result, expected);
}

#[test]
fn dash_at_start_is_rejected() {
    let expected = ProgramError::NameNotDetected("Could not detect character name".to_string());
    let error = character_name("-NoName_QuickSave_3").unwrap_err();
    assert_eq!(error, expected);
}

#[test]
fn underscore_check_precedes_name_check() {
    // a name failing both checks reports the missing underscores
    let expected = ProgramError::NotEnoughUnderscores(
        "Did not find the correct number of underscores. Cannot continue with this save."
            .to_string(),
    );
    let result = package_details("NoDashAndNoUnderscore").unwrap_err();
    assert_eq!(result, expected);
}

#[test]
fn name_check_runs_after_number_parses() {
    let expected = ProgramError::NameNotDetected("Could not detect character name".to_string());
    let result = package_details("NoDashHere_QuickSave_5").unwrap_err();
    assert_eq!(result, expected);
}

#[test]
fn boundary_sequence_numbers_round_trip() {
    for value in [0u16, u16::MAX] {
        let name = format!("Alice-1_QuickSave_{}", value);
        let record = package_details(&name).unwrap();
        assert_eq!(record.save_number, value);
        assert_eq!(record.character_name, "Alice");
        assert_eq!(record.save_type, SaveType::Quick);
        assert_eq!(record.file_name, name);
    }
}

#[test]
fn error_message_is_carried() {
    let error = ProgramError::CannotReadDirectory("no such directory".to_string());
    assert_eq!(error.message(), "no such directory");
    let error = ProgramError::NoPath("no working directory".to_string());
    assert_eq!(error.message(), "no working directory");
    let error = ProgramError::FailedToDelete("locked".to_string());
    assert_eq!(error.message(), "locked");
    let error = ProgramError::FailedToReadDir("gone".to_string());
    assert_eq!(error.message(), "gone");
    let error = ProgramError::AsciiErrorInFileName("odd bytes".to_string());
    assert_eq!(error.message(), "odd bytes");
}

#[test]
fn non_ascii_name_parses_without_panic() {
    let record = package_details("Ünïcodé-1_QuickSave_3").unwrap();
    assert_eq!(record.character_name, "Ünïcodé");
    assert_eq!(record.save_number, 3);
    assert_eq!(record.save_type, SaveType::Quick);
}
