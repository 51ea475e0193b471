use fish::dashboard::{http_response, route_request, DashboardConfig, DashboardRoute};
use fish::tally::{nearest_rank_index, tally};

#[test]
fn dashboard_defaults() {
    let config = DashboardConfig::default();
    assert_eq!(config.port, 8080);
    assert_eq!(config.refresh_interval_secs, 5);
    assert_eq!(config.project_path, ".");
    assert!(config.enable_cost_calculator && config.enable_team_analytics);
}

#[test]
fn requests_are_routed_by_path() {
    assert_eq!(route_request("GET /api/metrics HTTP/1.1"), DashboardRoute::Metrics);
    assert_eq!(route_request("GET /api/team HTTP/1.1"), DashboardRoute::Team);
    assert_eq!(route_request("GET /api/cost HTTP/1.1"), DashboardRoute::Cost);
    assert_eq!(route_request("GET / HTTP/1.1"), DashboardRoute::Index);
    assert_eq!(route_request("POST /x HTTP/1.1"), DashboardRoute::NotFound);
}

#[test]
fn responses_carry_the_body_length_in_bytes() {
    assert_eq!(
        http_response("{\"é\":1}"),
        "HTTP/1.1 200 OK\r\nContent-Type: application/json\r\nContent-Length: 8\r\nAccess-Control-Allow-Origin: *\r\n\r\n{\"é\":1}"
    );
}

#[test]
fn tally_counts_each_key_once_in_order() {
    let keys: Vec<String> = ["2024-01-02", "2024-01-01", "2024-01-02"].iter().map(|s| s.to_string()).collect();
    let t = tally(&keys);
    assert_eq!(t.len(), 2);
    assert_eq!((t[0].key.as_str(), t[0].count), ("2024-01-02", 2));
    assert_eq!((t[1].key.as_str(), t[1].count), ("2024-01-01", 1));
    assert!(tally(&[]).is_empty());
}

#[test]
fn nearest_rank_picks_the_ceiling_rank() {
    assert_eq!(nearest_rank_index(1, 50), 0);
    assert_eq!(nearest_rank_index(4, 50), 1);
    assert_eq!(nearest_rank_index(5, 50), 2);
    assert_eq!(nearest_rank_index(20, 95), 18);
    assert_eq!(nearest_rank_index(21, 95), 19);
    assert_eq!(nearest_rank_index(3, 100), 2);
}
