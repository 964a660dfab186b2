use geo_lb::discovery::{backend_address, endpoints_from_rows, listener_address, EndpointRow};

fn row(addr: &str, port: i32, app: &str, project: &str, app_port: i32, loc: Option<&str>) -> EndpointRow {
    EndpointRow {
        external_address: addr.to_string(),
        external_port: port,
        endpoint_port: app_port,
        app_id: app.to_string(),
        project_id: project.to_string(),
        placement_location: loc.map(|l| l.to_string()),
    }
}

#[test]
fn listener_address_joins_host_and_port() {
    assert_eq!(listener_address(&row("10.0.0.1", 8080, "a", "p", 80, None)), "10.0.0.1:8080");
    assert_eq!(listener_address(&row("h", 0, "a", "p", 80, None)), "h:0");
    assert_eq!(listener_address(&row("h", -12, "a", "p", 80, None)), "h:-12");
}

#[test]
fn backend_address_names_the_service() {
    let r = row("10.0.0.1", 8080, "app7", "proj3", 3000, Some("eu"));
    assert_eq!(
        backend_address(&r, &"eu".to_string()),
        "app-app7-eu-svc.proj-proj3.svc.cluster.local:3000"
    );
}

#[test]
fn rows_group_by_listener_and_location() {
    let rows = vec![
        row("1.1.1.1", 80, "a", "p", 8000, Some("B")),
        row("2.2.2.2", 443, "c", "q", 9000, None),
        row("1.1.1.1", 80, "b", "p", 8001, Some("B")),
        row("1.1.1.1", 80, "d", "p", 8002, Some("C")),
    ];
    let mut eps = endpoints_from_rows(&rows);
    assert_eq!(eps.len(), 2);
    assert_eq!(eps[0].listener, "1.1.1.1:80");
    assert_eq!(eps[1].listener, "2.2.2.2:443");
    let order: Vec<String> = vec!["A".to_string(), "B".to_string(), "C".to_string()];
    let picks: Vec<String> = (0..3).map(|_| eps[0].routing.select_backend(&order).unwrap()).collect();
    assert_eq!(
        picks,
        vec![
            "app-a-B-svc.proj-p.svc.cluster.local:8000",
            "app-b-B-svc.proj-p.svc.cluster.local:8001",
            "app-a-B-svc.proj-p.svc.cluster.local:8000",
        ]
    );
    assert!(eps[1].routing.select_backend(&order).is_err());
    let farther: Vec<String> = vec!["C".to_string()];
    assert_eq!(
        eps[0].routing.select_backend(&farther).unwrap(),
        "app-d-C-svc.proj-p.svc.cluster.local:8002"
    );
}

#[test]
fn no_rows_give_no_endpoints() {
    assert!(endpoints_from_rows(&Vec::new()).is_empty());
}
