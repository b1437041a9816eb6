use vstd::prelude::*;

verus! {

/// What an `update` run does, once its arguments have been checked.
#[derive(Debug, Clone, Copy, PartialEq, Eq, Structural)]
pub enum UpdatePlan {
    /// No input was named: the instance is left as it is.
    NothingToUpdate,
    /// `scorecard.html` is built anew from the scorecard and the agents,
    /// with the review metadata fields named in this run when
    /// `with_metadata`, and otherwise with the fields that the instance kept
    /// from its last run that named them, so that these stay as they were.
    Regenerate { with_metadata: bool },
}

/// Why an `update` run is refused.
#[derive(Debug, Clone, Copy, PartialEq, Eq, Structural)]
pub enum UpdateError {
    /// Only one of the scorecard and the agent list was named.
    ScorecardAndAgentsApart,
    /// The review metadata was named without the scorecard and the agents.
    MetadataAlone,
}

/// The outcome of an `update` run that names the scorecard, the agent list
/// and the review metadata as the three flags say.
pub open spec fn update_outcome(has_scorecard: bool, has_agents: bool, has_metadata: bool) -> Result<
    UpdatePlan,
    UpdateError,
> {
    if !has_scorecard && !has_agents && !has_metadata {
        Ok(UpdatePlan::NothingToUpdate)
    } else if has_scorecard != has_agents {
        Err(UpdateError::ScorecardAndAgentsApart)
    } else if has_scorecard {
        Ok(UpdatePlan::Regenerate { with_metadata: has_metadata })
    } else {
        Err(UpdateError::MetadataAlone)
    }
}

/// Decides what an `update` run does from which of its inputs were named.
pub fn plan_update(has_scorecard: bool, has_agents: bool, has_metadata: bool) -> (r: Result<
    UpdatePlan,
    UpdateError,
>)
    ensures
        r == update_outcome(has_scorecard, has_agents, has_metadata),
{
    if !has_scorecard && !has_agents && !has_metadata {
        return Ok(UpdatePlan::NothingToUpdate);
    }
    if has_scorecard != has_agents {
        return Err(UpdateError::ScorecardAndAgentsApart);
    }
    if has_scorecard {
        Ok(UpdatePlan::Regenerate { with_metadata: has_metadata })
    } else {
        Err(UpdateError::MetadataAlone)
    }
}

/// The message that explains an [`UpdateError`] to the user.
pub open spec fn update_error_text(e: UpdateError) -> Seq<char> {
    match e {
        UpdateError::ScorecardAndAgentsApart =>
            "Updating the scorecard or the agent list requires both -s/--path-to-scorecard and -a/--path-to-agents to be provided together, since scorecard.html is regenerated from both."@,
        UpdateError::MetadataAlone =>
            "Updating review metadata also requires -s/--path-to-scorecard and -a/--path-to-agents, since scorecard.html must be regenerated from all three inputs together."@,
    }
}

impl UpdateError {
    /// The message that explains this error to the user.
    pub fn message(&self) -> (r: String)
        ensures
            r@ == update_error_text(*self),
    {
        match self {
            UpdateError::ScorecardAndAgentsApart => String::from_str(
                "Updating the scorecard or the agent list requires both -s/--path-to-scorecard and -a/--path-to-agents to be provided together, since scorecard.html is regenerated from both.",
            ),
            UpdateError::MetadataAlone => String::from_str(
                "Updating review metadata also requires -s/--path-to-scorecard and -a/--path-to-agents, since scorecard.html must be regenerated from all three inputs together.",
            ),
        }
    }
}

/// The line that reports a regeneration of `scorecard.html`.
pub open spec fn update_summary_text(with_metadata: bool) -> Seq<char> {
    "Updated scorecard.html (scorecard, agents"@ + (if with_metadata {
        ", metadata"@
    } else {
        Seq::<char>::empty()
    }) + ")."@
}

/// Reports a regeneration of `scorecard.html` and what it was built from.
pub fn update_summary(with_metadata: bool) -> (r: String)
    ensures
        r@ == update_summary_text(with_metadata),
{
    let mut r = String::from_str("Updated scorecard.html (scorecard, agents");
    if with_metadata {
        r.append(", metadata");
    }
    r.append(").");
    assert(r@ =~= update_summary_text(with_metadata));
    r
}

/// An `update` run that names no input leaves the instance as it is.
pub proof fn law_update_without_inputs_is_a_noop()
    ensures
        update_outcome(false, false, false) == Ok::<UpdatePlan, UpdateError>(
            UpdatePlan::NothingToUpdate,
        ),
{
}

/// The scorecard and the agent list are updated together or not at all:
/// naming one without the other is refused, whatever else is named.
pub proof fn law_scorecard_and_agents_go_together(has_scorecard: bool, has_agents: bool, has_metadata: bool)
    requires
        has_scorecard != has_agents,
    ensures
        update_outcome(has_scorecard, has_agents, has_metadata) == Err::<UpdatePlan, UpdateError>(
            UpdateError::ScorecardAndAgentsApart,
        ),
{
}

/// Review metadata alone cannot be updated: the scorecard and the agents
/// must be named with it.
pub proof fn law_metadata_needs_scorecard_and_agents()
    ensures
        update_outcome(false, false, true) == Err::<UpdatePlan, UpdateError>(
            UpdateError::MetadataAlone,
        ),
{
}

/// `scorecard.html` is regenerated exactly when both the scorecard and the
/// agent list are named, and takes in the metadata exactly when that is named.
pub proof fn law_regenerate_needs_both(has_scorecard: bool, has_agents: bool, has_metadata: bool)
    ensures
        (update_outcome(has_scorecard, has_agents, has_metadata) is Ok
            && update_outcome(has_scorecard, has_agents, has_metadata)->Ok_0 is Regenerate) <==> (
        has_scorecard && has_agents),
        update_outcome(has_scorecard, has_agents, has_metadata) == Ok::<UpdatePlan, UpdateError>(
            UpdatePlan::Regenerate { with_metadata: true },
        ) ==> has_metadata,
{
}

} // verus!
