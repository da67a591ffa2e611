# glare

Review statistics for the pull requests of a GitHub repository: how often each
user (or team) was asked for a review and answered, how many pull requests are
open, merged, closed or drafts, and how many lines their diffs add and remove.
The statistics are served as JSON by a small web server.

- `src/` is the verified library (Verus):
  - `name_map.rs`: a table keyed by names, each name at most once;
  - `review.rs`: the statistics, pull request states and the counting of
    requests and responses;
  - `credit.rs`: whom a set of reviews credits, and team membership;
  - `diff.rs`: counting the added and removed lines of a diff;
  - `json.rs`: the published JSON document;
  - `api_json.rs`: the GitHub API's JSON (read by `serde_json`, the one call
    the library trusts) and the verified readers of pull requests, reviews
    and teams;
  - `version.rs`: semantic-version precedence, for the notice of a newer release;
  - `api.rs`: the server's answer to a reload request.
- `app/` is the program around it: command line, HTTP requests to the GitHub
  API, progress output, the web server and conversion of the published
  document to `serde_json`.
- `tests/` exercises the library.
