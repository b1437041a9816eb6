use qams::options::{
    decimal_string, default_options_toml, options_toml_to_write, DEFAULT_ACCUMULATION_PERIOD,
    DEFAULT_PATH_TO_REPORTS, DEFAULT_PATH_TO_REVIEWS,
};
use qams::update::{plan_update, update_summary, UpdateError, UpdatePlan};

#[test]
fn options_toml_has_expected_defaults() {
    let toml = default_options_toml();
    assert!(toml.contains("path_to_reviews = \"./reviews\""));
    assert!(toml.contains("path_to_reports = \"./reports\""));
    assert!(toml.contains("accumulation_period = 4"));
    assert_eq!(
        toml,
        "path_to_reviews = \"./reviews\"\npath_to_reports = \"./reports\"\naccumulation_period = 4\n"
    );
    assert_eq!(DEFAULT_PATH_TO_REVIEWS, "./reviews");
    assert_eq!(DEFAULT_PATH_TO_REPORTS, "./reports");
    assert_eq!(DEFAULT_ACCUMULATION_PERIOD, 4);
}

#[test]
fn options_toml_not_overwritten_on_reinit() {
    assert_eq!(options_toml_to_write(true), None);
    assert_eq!(options_toml_to_write(false), Some(default_options_toml()));
}

#[test]
fn decimal_strings() {
    assert_eq!(decimal_string(0), "0");
    assert_eq!(decimal_string(4), "4");
    assert_eq!(decimal_string(10), "10");
    assert_eq!(decimal_string(1234567890), "1234567890");
    assert_eq!(decimal_string(u64::MAX), u64::MAX.to_string());
}

// The `update_*` tests below check the plan that an `update` run follows;
// the page it writes comes from the scorecard renderer, which runs in app/.
#[test]
fn update_with_no_args_is_a_noop() {
    assert_eq!(plan_update(false, false, false), Ok(UpdatePlan::NothingToUpdate));
}

// Checks that naming both inputs plans a regeneration of the page (whose
// agent list the scorecard renderer writes); it does not read the page.
#[test]
fn update_scorecard_and_agents_together() {
    assert_eq!(
        plan_update(true, true, false),
        Ok(UpdatePlan::Regenerate { with_metadata: false })
    );
    assert_eq!(
        plan_update(true, true, true),
        Ok(UpdatePlan::Regenerate { with_metadata: true })
    );
}

#[test]
fn update_scorecard_without_agents_is_error() {
    assert!(plan_update(true, false, false).is_err());
    assert_eq!(plan_update(true, false, true), Err(UpdateError::ScorecardAndAgentsApart));
    assert_eq!(plan_update(false, true, false), Err(UpdateError::ScorecardAndAgentsApart));
}

#[test]
fn update_metadata_without_scorecard_and_agents_is_error() {
    assert!(plan_update(false, false, true).is_err());
    assert_eq!(plan_update(false, false, true), Err(UpdateError::MetadataAlone));
}

#[test]
fn update_messages() {
    assert_eq!(
        UpdateError::ScorecardAndAgentsApart.message(),
        "Updating the scorecard or the agent list requires both -s/--path-to-scorecard and -a/--path-to-agents to be provided together, since scorecard.html is regenerated from both."
    );
    assert_eq!(
        UpdateError::MetadataAlone.message(),
        "Updating review metadata also requires -s/--path-to-scorecard and -a/--path-to-agents, since scorecard.html must be regenerated from all three inputs together."
    );
    assert_eq!(update_summary(true), "Updated scorecard.html (scorecard, agents, metadata).");
    assert_eq!(update_summary(false), "Updated scorecard.html (scorecard, agents).");
}
