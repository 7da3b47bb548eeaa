use mdns_sd::{ServiceEvent, ServiceInfo};
use std::time::Duration;
use teehee::discovery::{
    announcement, first_ipv4, first_ipv4_from_event, AdvertiseError, BrowseEvent, BrowseStep,
    Browser, Endpoint, ResolutionError, BROWSE_POLL_NS, SERVICE_TYPE, TXT_VERSION_KEY,
    TXT_VERSION_VALUE,
};

#[test]
fn service_type_constant_matches_rfc6763_form() {
    assert!(SERVICE_TYPE.starts_with('_'));
    assert!(SERVICE_TYPE.ends_with(".local."));
    assert!(SERVICE_TYPE.contains("._udp."));
}

#[test]
fn resolution_error_timeout_display_includes_ms() {
    let err = ResolutionError::Timeout {
        timeout: Duration::from_millis(3_000),
    };
    let s = err.message();
    assert!(s.contains("3000"), "display must name 3000 ms; got: {s}");
    assert!(
        s.contains("timed out"),
        "display must say 'timed out'; got: {s}"
    );
    assert!(
        s.contains("_teehee._udp.local"),
        "display must name the service type; got: {s}"
    );
}

#[test]
fn resolution_error_daemon_display_includes_message() {
    let err = ResolutionError::Daemon("bind failed".into());
    let s = err.message();
    assert!(
        s.contains("bind failed"),
        "display must include inner msg; got: {s}"
    );
}

#[test]
fn advertise_error_variants_distinct_display() {
    let daemon = AdvertiseError::Daemon("e1".into());
    let info = AdvertiseError::ServiceInfo("e2".into());
    let register = AdvertiseError::Register("e3".into());
    let shutdown = AdvertiseError::Shutdown("e4".into());
    assert!(daemon.message().contains("e1"));
    assert!(info.message().contains("e2"));
    assert!(register.message().contains("e3"));
    assert!(shutdown.message().contains("e4"));
}

#[test]
fn first_ipv4_from_event_ignores_non_resolved_events() {
    let addr = first_ipv4_from_event(ServiceEvent::SearchStopped(SERVICE_TYPE.to_string()));
    assert!(
        addr.is_none(),
        "SearchStopped must not return an address"
    );
}


#[test]
fn errors_in_full() {
    let timeout = ResolutionError::Timeout { timeout: Duration::from_micros(1_500_999) };
    assert_eq!(
        timeout.message(),
        "mDNS discovery timed out after 1500 ms for _teehee._udp.local. Is the receiver running \
         with --mdns? Try raising --mdns-timeout-ms or pass --host <ip> explicitly."
    );
    assert_eq!(ResolutionError::Daemon("x".into()).message(), "mDNS daemon error: x");
    assert_eq!(AdvertiseError::Daemon("x".into()).message(), "mDNS daemon error: x");
    assert_eq!(AdvertiseError::Register("x".into()).message(), "registration error: x");
}

#[test]
fn first_address_is_taken() {
    let event = BrowseEvent::Resolved { addresses: vec![0x0a00_0005, 0x7f00_0001], port: 6000 };
    let found = Endpoint { ip: 0x0a00_0005, port: 6000 };
    assert_eq!(first_ipv4(&event), Some(found));
    let none = BrowseEvent::Resolved { addresses: vec![], port: 6000 };
    assert_eq!(first_ipv4(&none), None);
    assert_eq!(first_ipv4(&BrowseEvent::Other), None);
}

#[test]
fn resolved_services_give_an_address() {
    let listed = ["10.0.0.5", "10.0.0.6"];
    let info = ServiceInfo::new(SERVICE_TYPE, "x", "x.local.", &listed[..], 6000, None).unwrap();
    let found = first_ipv4_from_event(ServiceEvent::ServiceResolved(info)).unwrap();
    assert!([0x0a00_0005, 0x0a00_0006].contains(&found.ip));
    assert_eq!(found.port, 6000);
    let info = ServiceInfo::new(SERVICE_TYPE, "x", "x.local.", "", 6000, None).unwrap();
    assert_eq!(first_ipv4_from_event(ServiceEvent::ServiceResolved(info)), None);
}

#[test]
fn announcements_describe_the_receiver() {
    let a = announcement(5000, "test-instance", "test-host.local.").unwrap();
    assert_eq!(a.fullname, "test-instance._teehee._udp.local.");
    assert_eq!(a.info.get_fullname(), a.fullname);
    assert_eq!(a.info.get_type(), SERVICE_TYPE);
    assert_eq!(a.info.get_hostname(), "test-host.local.");
    assert_eq!(a.info.get_port(), 5000);
    assert_eq!(a.info.get_property_val_str(TXT_VERSION_KEY), Some(TXT_VERSION_VALUE));
    assert_eq!(a.info.get_properties().iter().count(), 1);
    assert!(a.info.get_addresses().is_empty());
    assert!(!a.info.is_addr_auto());
}

#[test]
fn waits_end_at_the_deadline() {
    let b = Browser::new(1_000, 250_000_000);
    assert_eq!(b.next(1_000), BrowseStep::Wait { wait_ns: BROWSE_POLL_NS });
    assert_eq!(b.after(None, 200_001_000), BrowseStep::Wait { wait_ns: 50_000_000 });
    assert_eq!(b.after(None, 250_001_000), BrowseStep::TimedOut);
    let found = Endpoint { ip: 1, port: 2 };
    assert_eq!(b.after(Some(found), 250_001_000), BrowseStep::Found(found));
}
