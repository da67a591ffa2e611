//! Review statistics for the pull requests of a repository: how often each
//! user (or team) was asked for a review and answered, how many pull requests
//! are in each state, and how many lines their diffs add and remove.
pub mod api;
pub mod api_json;
pub mod diff;
pub mod json;
pub mod name_map;
pub mod review;
pub mod version;
pub mod credit;

pub use api::{reload_reply, ApiFailure};
pub use version::newer_version;
pub use diff::{count_diff_lines, diff_lines_sliceable};
pub use json::{request_data_to_json, JsonValue};
pub use name_map::NameMap;
pub use review::{classify_pull, DiffCounts, PullFollowUp, PullState, RequestData, ReviewData};
pub use credit::{add_team_members, collect_reviewers};
pub use api_json::{
    parse_api_json, read_member_logins, read_pull, read_pull_number, read_pull_url, read_pulls,
    read_review_logins, read_team_slugs, ApiJson, JsonShapeError, PullFacts,
};
