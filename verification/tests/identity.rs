use drill_core::config::{default_timeout, GenerationBudget, GenerationConfig, DEFAULT_MAX_ATTEMPTS};
use drill_core::error::GenerationError;
use drill_core::identity::{validate_seed, Difficulty, IdentityError, ProblemSetIdentity, MAX_SEED_LENGTH};
use drill_core::model::GenerateWorksheetRequest;
use drill_core::schema::SCHEMA_VERSION;
use std::time::Duration;

fn difficulty(value: u8) -> Difficulty {
    Difficulty::try_from(value).unwrap()
}

#[test]
fn identity_round_trips_through_its_id_string() {
    let identity = ProblemSetIdentity::new(1, 2, "Ab3Z".to_owned(), difficulty(2)).unwrap();
    let id = identity.to_id_string();
    assert_eq!(id, format!("{}-1-2-Ab3Z-2", SCHEMA_VERSION));
    assert_eq!(ProblemSetIdentity::parse(&id), Ok(identity));
    assert_eq!(
        ProblemSetIdentity::parse(&format!("+{}-+1-2-Ab3Z-5", SCHEMA_VERSION)).map(|parsed| parsed.numeric_theme_id()),
        Ok(1)
    );
}

#[test]
fn unsupported_schema_versions_and_malformed_ids_fail_closed() {
    assert_eq!(
        ProblemSetIdentity::parse("2-1-2-Ab3Z-3"),
        Err(IdentityError::UnsupportedSchemaVersion { received: 2, expected: SCHEMA_VERSION })
    );
    assert_eq!(
        ProblemSetIdentity::parse("3-1-3-Ab3Z-3"),
        Err(IdentityError::UnsupportedSchemaVersion { received: 3, expected: SCHEMA_VERSION })
    );
    assert_eq!(ProblemSetIdentity::parse("7-1-2-Ab3Z"), Err(IdentityError::MalformedProblemSetId));
    assert_eq!(ProblemSetIdentity::parse("7-1-2-Ab3Z-3-9"), Err(IdentityError::MalformedProblemSetId));
    assert_eq!(
        ProblemSetIdentity::parse("7-x-2-Ab3Z-3"),
        Err(IdentityError::InvalidNumericPart { name: "numeric_theme_id" })
    );
    assert_eq!(
        ProblemSetIdentity::parse("70000-1-2-Ab3Z-3"),
        Err(IdentityError::InvalidNumericPart { name: "schema_version" })
    );
    assert_eq!(ProblemSetIdentity::parse("7-1-2-Ab3Z-9"), Err(IdentityError::InvalidDifficulty { value: 9 }));
    assert_eq!(ProblemSetIdentity::parse("7-1-2-AbIZ-3"), Err(IdentityError::InvalidSeedCharacter));
}

#[test]
fn seeds_use_a_short_unambiguous_alphabet() {
    assert_eq!(validate_seed("Ab3Z"), Ok(()));
    assert_eq!(validate_seed(""), Err(IdentityError::InvalidSeedLength { length: 0, max: MAX_SEED_LENGTH }));
    assert_eq!(
        validate_seed("12345678912345678"),
        Err(IdentityError::InvalidSeedLength { length: 17, max: MAX_SEED_LENGTH })
    );
    for rejected in ["0", "O", "I", "l", "a-b", "é"] {
        assert!(validate_seed(rejected).is_err(), "{rejected}");
    }
    assert!(ProblemSetIdentity::new(1, 2, "bad seed".to_owned(), difficulty(3)).is_err());
    assert_eq!(Difficulty::try_from(0), Err(IdentityError::InvalidDifficulty { value: 0 }));
    assert_eq!(Difficulty::try_from(6), Err(IdentityError::InvalidDifficulty { value: 6 }));
    assert_eq!(Difficulty::default_difficulty().value(), 2);
}

#[test]
fn generation_budgets_default_to_the_documented_limits() {
    let config = GenerationConfig::default();
    assert_eq!(config.timeout, Duration::from_secs(15));
    assert_eq!(config.max_attempts, DEFAULT_MAX_ATTEMPTS);
    assert_eq!(DEFAULT_MAX_ATTEMPTS, 10_000);
    assert_eq!(default_timeout(), Duration::from_secs(15));

    let mut request = GenerateWorksheetRequest::new(1, "Ab3Z".to_owned(), difficulty(3));
    assert_eq!(GenerationConfig::from_request(&request), config);
    request.timeout_ms = Some(250);
    request.max_attempts = Some(3);
    let configured = GenerationConfig::from_request(&request);
    assert_eq!(configured.timeout, Duration::from_millis(250));
    assert_eq!(configured.max_attempts, 3);

    let adjusted = config.with_max_attempts(1_000).with_timeout(Duration::from_millis(5));
    assert_eq!(adjusted.max_attempts, 1_000);
    assert_eq!(adjusted.timeout, Duration::from_millis(5));
}

#[test]
fn timeout_error_carries_saturated_milliseconds() {
    assert_eq!(GenerationError::timeout(Duration::from_millis(5)), GenerationError::Timeout { timeout_ms: 5 });
    assert_eq!(GenerationError::timeout(Duration::from_micros(2_500)), GenerationError::Timeout { timeout_ms: 2 });
    assert_eq!(
        GenerationError::timeout(Duration::from_secs(u64::MAX)),
        GenerationError::Timeout { timeout_ms: u64::MAX }
    );
}

#[test]
fn budget_spends_attempts_until_the_limit() {
    let config = GenerationConfig::default().with_max_attempts(2).with_timeout(Duration::from_millis(100));
    let mut budget = GenerationBudget::new(&config);
    assert_eq!(budget.timeout_ms, 100);
    assert_eq!(budget.consume_attempt(0), Ok(()));
    assert_eq!(budget.consume_attempt(500), Ok(()));
    assert_eq!(budget.attempts, 2);
    assert_eq!(
        budget.consume_attempt(0),
        Err(GenerationError::AttemptLimit { attempts: 2, max_attempts: 2 })
    );
    assert_eq!(budget.attempts, 2);
}

#[test]
fn budget_watchdog_fires_on_check_attempts() {
    let config = GenerationConfig::default().with_timeout(Duration::from_millis(10));
    let mut budget = GenerationBudget::new(&config);
    assert_eq!(budget.consume_attempt(10), Err(GenerationError::Timeout { timeout_ms: 10 }));
    assert_eq!(budget.consume_attempt(9), Ok(()));
    assert_eq!(budget.consume_attempt(50), Ok(()));
    assert_eq!(budget.check_timeout(50), Err(GenerationError::Timeout { timeout_ms: 10 }));
    assert_eq!(budget.check_timeout(9), Ok(()));
}
