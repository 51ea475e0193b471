use vstd::prelude::*;
use crate::text::{byte_len, decimal, decimal_string, has_substring, str_byte_len, str_contains};

verus! {

/// Settings of the analytics dashboard server; the project path is kept as text.
#[derive(Debug)]
pub struct DashboardConfig {
    pub port: u16,
    pub refresh_interval_secs: u64,
    pub project_path: String,
    pub enable_cost_calculator: bool,
    pub enable_team_analytics: bool,
}

impl Clone for DashboardConfig {
    fn clone(&self) -> (r: Self)
        ensures
            r == *self,
    {
        DashboardConfig {
            port: self.port,
            refresh_interval_secs: self.refresh_interval_secs,
            project_path: self.project_path.clone(),
            enable_cost_calculator: self.enable_cost_calculator,
            enable_team_analytics: self.enable_team_analytics,
        }
    }
}

impl Default for DashboardConfig {
    /// Port 8080, a refresh every 5 seconds, the current directory, both panels on.
    fn default() -> (r: Self)
        ensures
            r.port == 8080,
            r.refresh_interval_secs == 5,
            r.project_path@ == "."@,
            r.enable_cost_calculator,
            r.enable_team_analytics,
    {
        DashboardConfig {
            port: 8080,
            refresh_interval_secs: 5,
            project_path: ".".to_string(),
            enable_cost_calculator: true,
            enable_team_analytics: true,
        }
    }
}

/// What the dashboard's HTTP endpoint answers a request with.
#[derive(Debug, Clone, Copy, PartialEq, Eq, Structural)]
pub enum DashboardRoute {
    /// The whole dashboard state.
    Metrics,
    /// The team statistics.
    Team,
    /// The cost metrics.
    Cost,
    /// The list of endpoints.
    Index,
    /// Anything else.
    NotFound,
}

/// The route of a request: the first of `GET /api/metrics`, `GET /api/team`,
/// `GET /api/cost` and `GET /` that the request text contains.
pub open spec fn route_of(request: Seq<char>) -> DashboardRoute {
    if has_substring(request, "GET /api/metrics"@) {
        DashboardRoute::Metrics
    } else if has_substring(request, "GET /api/team"@) {
        DashboardRoute::Team
    } else if has_substring(request, "GET /api/cost"@) {
        DashboardRoute::Cost
    } else if has_substring(request, "GET /"@) {
        DashboardRoute::Index
    } else {
        DashboardRoute::NotFound
    }
}

proof fn lemma_substring_prefix(s: Seq<char>, p: Seq<char>, q: Seq<char>)
    requires
        has_substring(s, p),
        q.len() <= p.len(),
        p.subrange(0, q.len() as int) == q,
    ensures
        has_substring(s, q),
{
    let i = choose|i: int| 0 <= i && i + p.len() <= s.len() && #[trigger] s.subrange(i, i + p.len()) == p;
    assert(s.subrange(i, i + q.len()) =~= p.subrange(0, q.len() as int));
}

/// The route of a request (see `route_of`).
pub fn route_request(request: &str) -> (r: DashboardRoute)
    ensures
        r == route_of(request@),
        has_substring(request@, "GET /api/metrics"@) ==> r == DashboardRoute::Metrics,
        r == DashboardRoute::NotFound <==> !has_substring(request@, "GET /"@),
{
    proof {
        reveal_strlit("GET /api/metrics");
        reveal_strlit("GET /api/team");
        reveal_strlit("GET /api/cost");
        reveal_strlit("GET /");
        let q = "GET /"@;
        assert("GET /api/metrics"@.subrange(0, 5) =~= q);
        assert("GET /api/team"@.subrange(0, 5) =~= q);
        assert("GET /api/cost"@.subrange(0, 5) =~= q);
        if has_substring(request@, "GET /api/metrics"@) {
            lemma_substring_prefix(request@, "GET /api/metrics"@, q);
        }
        if has_substring(request@, "GET /api/team"@) {
            lemma_substring_prefix(request@, "GET /api/team"@, q);
        }
        if has_substring(request@, "GET /api/cost"@) {
            lemma_substring_prefix(request@, "GET /api/cost"@, q);
        }
    }
    if str_contains(request, "GET /api/metrics") {
        DashboardRoute::Metrics
    } else if str_contains(request, "GET /api/team") {
        DashboardRoute::Team
    } else if str_contains(request, "GET /api/cost") {
        DashboardRoute::Cost
    } else if str_contains(request, "GET /") {
        DashboardRoute::Index
    } else {
        DashboardRoute::NotFound
    }
}

/// A `200 OK` JSON response carrying `body`, its length in bytes in `Content-Length`.
pub open spec fn json_response(body: Seq<char>) -> Seq<char> {
    "HTTP/1.1 200 OK\r\nContent-Type: application/json\r\nContent-Length: "@ + decimal(byte_len(body))
        + "\r\nAccess-Control-Allow-Origin: *\r\n\r\n"@ + body
}

/// Frames `body` as the dashboard's HTTP response (see `json_response`).
pub fn http_response(body: &str) -> (r: String)
    ensures
        r@ == json_response(body@),
{
    let mut out = "HTTP/1.1 200 OK\r\nContent-Type: application/json\r\nContent-Length: ".to_string();
    let n = decimal_string(str_byte_len(body) as u128);
    out.append(n.as_str());
    out.append("\r\nAccess-Control-Allow-Origin: *\r\n\r\n");
    out.append(body);
    out
}

} // verus!
