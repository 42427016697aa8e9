use listing_watch::{
    contact_message, detail_url, diff, extract_listings, notification_body, on_event, parse_price, resolve_all,
    resolve_lifetime, CookieError, CookieLifetime, CookieRecord, FailurePolicy, Listing,
    OutreachRun, Price, PriceError, RawCard, ScanState, SessionAction, SessionEvent, SessionPhase,
    Snapshot, CONNECT_RETRY_SECS, CYCLE_PAUSE_SECS, RESTART_SECS,
};

fn card(title: &str, href: &str, price: &str) -> RawCard {
    RawCard {
        title: Some(title.to_string()),
        href: Some(href.to_string()),
        price_text: Some(price.to_string()),
    }
}

fn listing(title: &str, euros: u64) -> Listing {
    Listing {
        title: title.to_string(),
        contact_path: format!("/iad/{}", title),
        price: Price { mantissa: euros, scale: 0 },
    }
}

fn snapshot(items: &[(&str, u64)]) -> Snapshot {
    let mut s = Snapshot::new();
    for (t, p) in items {
        s.insert_first(listing(t, *p));
    }
    s
}

fn titles(s: &Snapshot) -> Vec<String> {
    (0..s.len()).map(|i| s.get(i).title.clone()).collect()
}

fn rows(s: &Snapshot) -> Vec<(String, String, u64, usize)> {
    (0..s.len())
        .map(|i| {
            let l = s.get(i);
            (l.title.clone(), l.contact_path.clone(), l.price.mantissa, l.price.scale)
        })
        .collect()
}

fn as_f64(p: Price) -> f64 {
    p.mantissa as f64 / 10f64.powi(p.scale as i32)
}

#[test]
fn price_with_decimal_comma() {
    let p = parse_price("€ 45,00").unwrap();
    assert_eq!(p, Price { mantissa: 4500, scale: 2 });
    assert_eq!(as_f64(p), 45.0);
}

#[test]
fn price_with_thousands_separator_is_malformed() {
    assert_eq!(parse_price("€ 1.250,50"), Err(PriceError::Malformed));
}

#[test]
fn price_whole_number_and_trailing_words() {
    assert_eq!(parse_price("€ 45 VB"), Ok(Price { mantissa: 45, scale: 0 }));
    assert_eq!(parse_price("€ 7,5"), Ok(Price { mantissa: 75, scale: 1 }));
}

#[test]
fn price_trims_unicode_blanks() {
    assert_eq!(parse_price("€ \u{a0}12,30\u{a0}"), Ok(Price { mantissa: 1230, scale: 2 }));
}

#[test]
fn price_with_plus_sign_and_exponent() {
    assert_eq!(parse_price("€ +5"), Ok(Price { mantissa: 5, scale: 0 }));
    assert_eq!(parse_price("€ 1e3"), Ok(Price { mantissa: 1000, scale: 0 }));
    assert_eq!(parse_price("€ 1,5e3"), Ok(Price { mantissa: 1500, scale: 0 }));
    assert_eq!(parse_price("€ 5E+2"), Ok(Price { mantissa: 500, scale: 0 }));
    assert_eq!(parse_price("€ 2,5e-2"), Ok(Price { mantissa: 25, scale: 3 }));
    assert_eq!(parse_price("€ 4500e-2"), Ok(Price { mantissa: 4500, scale: 2 }));
    assert_eq!(as_f64(parse_price("€ +45,00").unwrap()), 45.0);
}

#[test]
fn price_without_a_price_value() {
    assert_eq!(parse_price("€ -5"), Err(PriceError::Malformed));
    assert_eq!(parse_price("€ inf"), Err(PriceError::Malformed));
    assert_eq!(parse_price("€ NaN"), Err(PriceError::Malformed));
    assert_eq!(parse_price("€ +"), Err(PriceError::Malformed));
    assert_eq!(parse_price("€ 1e"), Err(PriceError::Malformed));
    assert_eq!(parse_price("€ e5"), Err(PriceError::Malformed));
    assert_eq!(parse_price("€ 1e5e5"), Err(PriceError::Malformed));
}

#[test]
fn price_exponent_out_of_range() {
    assert_eq!(parse_price("€ 1e400"), Err(PriceError::TooLarge));
    assert_eq!(parse_price("€ 18446744073709551615e1"), Err(PriceError::TooLarge));
    assert_eq!(parse_price("€ 1e19"), Ok(Price { mantissa: 10_000_000_000_000_000_000, scale: 0 }));
    assert_eq!(parse_price("€ 0e99999999999999999999999"), Ok(Price { mantissa: 0, scale: 0 }));
    assert_eq!(parse_price("€ 1e-99999999999999999999999"), Err(PriceError::TooLarge));
}

#[test]
fn plus_priced_card_is_kept() {
    let snap = extract_listings(&vec![card("A", "/a", "€ +5")]).unwrap();
    assert_eq!(rows(&snap), vec![("A".to_string(), "/a".to_string(), 5, 0)]);
}

#[test]
fn price_without_second_field() {
    assert_eq!(parse_price("45,00"), Err(PriceError::NoAmount));
    assert_eq!(parse_price(""), Err(PriceError::NoAmount));
}

#[test]
fn price_with_double_space_or_text_is_malformed() {
    assert_eq!(parse_price("€  45"), Err(PriceError::Malformed));
    assert_eq!(parse_price("€ gratis"), Err(PriceError::Malformed));
    assert_eq!(parse_price("€ ,"), Err(PriceError::Malformed));
}

#[test]
fn price_too_large() {
    assert_eq!(parse_price("€ 99999999999999999999"), Err(PriceError::TooLarge));
    assert_eq!(
        parse_price("€ 18446744073709551615"),
        Ok(Price { mantissa: u64::MAX, scale: 0 })
    );
}

#[test]
fn duplicate_titles_keep_first_card() {
    let cards = vec![
        card("Ticket", "/a", "€ 10"),
        card("Other", "/b", "€ 20"),
        card("Ticket", "/c", "€ 30"),
    ];
    let snap = extract_listings(&cards).unwrap();
    assert_eq!(
        rows(&snap),
        vec![
            ("Ticket".to_string(), "/a".to_string(), 10, 0),
            ("Other".to_string(), "/b".to_string(), 20, 0)
        ]
    );
}

#[test]
fn incomplete_cards_are_skipped() {
    let cards = vec![
        RawCard { title: None, href: Some("/x".to_string()), price_text: Some("€ 1".to_string()) },
        RawCard { title: Some("T".to_string()), href: None, price_text: Some("€ 1".to_string()) },
        RawCard { title: Some("U".to_string()), href: Some("/u".to_string()), price_text: None },
        card("", "/e", "€ 1"),
        card("Kept", "/k", "€ 5,50"),
    ];
    let snap = extract_listings(&cards).unwrap();
    assert_eq!(rows(&snap), vec![("Kept".to_string(), "/k".to_string(), 550, 2)]);
}

#[test]
fn malformed_price_fails_the_scan() {
    let cards = vec![card("A", "/a", "€ 10"), card("B", "/b", "€ 1.250,50")];
    assert_eq!(extract_listings(&cards).err(), Some(PriceError::Malformed));
}

#[test]
fn empty_page_gives_empty_snapshot() {
    let snap = extract_listings(&Vec::new()).unwrap();
    assert_eq!(snap.len(), 0);
}

#[test]
fn extraction_is_repeatable() {
    let cards = vec![card("A", "/a", "€ 10"), card("B", "/b", "€ 20")];
    let first = extract_listings(&cards).unwrap();
    let again = extract_listings(&cards).unwrap();
    assert_eq!(rows(&first), rows(&again));
    assert_eq!(diff(&first, &again).len(), 0);
}

#[test]
fn diff_holds_exactly_the_new_titles() {
    let a = snapshot(&[("A", 10), ("B", 20)]);
    let b = snapshot(&[("B", 99), ("C", 30), ("D", 40)]);
    let d = diff(&a, &b);
    assert_eq!(titles(&d), vec!["C".to_string(), "D".to_string()]);
    assert!(!d.contains_title("B"));
    assert_eq!(diff(&b, &a).len(), 1);
    assert_eq!(titles(&diff(&Snapshot::new(), &b)), titles(&b));
}

#[test]
fn snapshot_lookup_and_insert() {
    let mut s = snapshot(&[("A", 10)]);
    assert!(!s.insert_first(listing("A", 99)));
    assert!(s.insert_first(listing("B", 5)));
    assert_eq!(s.find("A").unwrap().price.mantissa, 10);
    assert!(s.find("Z").is_none());
}

#[test]
fn reset_cycle_reports_whole_snapshot() {
    let mut state = ScanState::new(snapshot(&[("A", 10)]), 3);
    let fresh = state.advance(snapshot(&[("A", 10)]));
    assert_eq!(fresh.len(), 0);
    let fresh = state.advance(snapshot(&[("A", 10)]));
    assert_eq!(titles(&fresh), vec!["A".to_string()]);
    assert_eq!(state.phase, 2);
    let fresh = state.advance(snapshot(&[("A", 10)]));
    assert_eq!(fresh.len(), 0);
    assert_eq!(state.phase, 0);
}

#[test]
fn reset_repeats_every_period() {
    let mut state = ScanState::new(snapshot(&[("A", 10)]), 3);
    let mut resets = Vec::new();
    for cycle in 1..=9u64 {
        if state.advance(snapshot(&[("A", 10)])).len() == 1 {
            resets.push(cycle);
        }
    }
    assert_eq!(resets, vec![2, 5, 8]);
}

#[test]
fn zero_period_never_resets() {
    let mut state = ScanState::new(snapshot(&[("A", 10)]), 0);
    for _ in 0..5 {
        assert_eq!(state.advance(snapshot(&[("A", 10)])).len(), 0);
    }
}

#[test]
fn end_to_end_cycles() {
    let mut state = ScanState::new(snapshot(&[("A", 10), ("B", 20)]), 3);
    let fresh = state.advance(snapshot(&[("A", 10), ("B", 20), ("C", 30)]));
    assert_eq!(titles(&fresh), vec!["C".to_string()]);
    assert_eq!(fresh.get(0).price.mantissa, 30);
    let fresh = state.advance(snapshot(&[("A", 10), ("B", 20), ("C", 30)]));
    assert_eq!(titles(&fresh), vec!["A".to_string(), "B".to_string(), "C".to_string()]);
}

#[test]
fn failure_aborts_cycle_under_abort_policy() {
    let mut run = OutreachRun::start(2, FailurePolicy::AbortCycle);
    assert_eq!(run.next_listing(), Some(0));
    run.record(false);
    assert!(run.aborted);
    assert_eq!(run.next_listing(), None);
    assert_eq!(run.contacted, 0);
}

#[test]
fn failure_skips_listing_under_skip_policy() {
    let mut run = OutreachRun::start(2, FailurePolicy::SkipListing);
    run.record(false);
    assert_eq!(run.next_listing(), Some(1));
    run.record(true);
    assert_eq!(run.next_listing(), None);
    assert_eq!((run.contacted, run.failed), (1, 1));
}

#[test]
fn outreach_texts() {
    assert_eq!(
        detail_url("www.willhaben.at", "/iad/x/123"),
        "https://www.willhaben.at/iad/x/123"
    );
    assert_eq!(
        contact_message("Anna"),
        "Hallo Anna, ich möchte die Tickets bitte gleich reservieren und kaufen"
    );
}

#[test]
fn notification_text() {
    assert_eq!(
        notification_body("Anna", "KIZ Ticket", "45"),
        "Name: Anna\nTitle: KIZ Ticket\nPrice: 45"
    );
}

#[test]
fn listing_constructor_keeps_fields() {
    let l = Listing::new("T".to_string(), "/p".to_string(), Price { mantissa: 5, scale: 1 });
    let d = l.duplicate();
    assert_eq!((d.title.as_str(), d.contact_path.as_str(), d.price), ("T", "/p", Price { mantissa: 5, scale: 1 }));
}

fn record(session: Option<bool>, expiry: Option<i64>) -> CookieRecord {
    CookieRecord {
        name: "n".to_string(),
        value: "v".to_string(),
        domain: ".willhaben.at".to_string(),
        path: Some("/".to_string()),
        secure: Some(true),
        http_only: None,
        expiry,
        session,
    }
}

#[test]
fn cookie_lifetimes() {
    assert!(matches!(resolve_lifetime(&record(Some(true), Some(5))), Ok(CookieLifetime::Session)));
    match resolve_lifetime(&record(None, Some(1_546_300_800))) {
        Ok(CookieLifetime::ExpiresAt(at)) => assert_eq!(at, 1_546_300_800),
        other => panic!("unexpected {:?}", other),
    }
    assert_eq!(resolve_lifetime(&record(None, None)).err(), Some(CookieError::NoLifetime));
    assert_eq!(
        resolve_lifetime(&record(None, Some(253_402_300_800))).err(),
        Some(CookieError::ExpiryOutOfRange)
    );
    assert!(resolve_lifetime(&record(None, Some(253_402_300_799))).is_ok());
    assert!(resolve_lifetime(&record(None, Some(-377_705_116_800))).is_ok());
    assert!(resolve_lifetime(&record(None, Some(-377_705_116_801))).is_err());
}

#[test]
fn cookie_list_fails_on_first_bad_record() {
    let recs = vec![record(Some(true), None), record(None, None), record(None, Some(i64::MAX))];
    assert_eq!(resolve_all(&recs).err(), Some((1, CookieError::NoLifetime)));
    let good = vec![record(Some(true), None), record(None, Some(0))];
    assert_eq!(resolve_all(&good).unwrap().len(), 2);
}

#[test]
fn supervisor_transitions() {
    let (p, a) = on_event(SessionPhase::Disconnected, SessionEvent::Started);
    assert_eq!((p, a), (SessionPhase::Connecting, SessionAction::Connect { after_secs: 0 }));
    let (p, a) = on_event(p, SessionEvent::ConnectFailed);
    assert_eq!(
        (p, a),
        (SessionPhase::Connecting, SessionAction::Connect { after_secs: CONNECT_RETRY_SECS })
    );
    let (p, a) = on_event(p, SessionEvent::Connected);
    assert_eq!((p, a), (SessionPhase::LoggingIn, SessionAction::Login));
    let (p, _) = on_event(p, SessionEvent::LoggedIn);
    let (p, a) = on_event(p, SessionEvent::CycleDone);
    assert_eq!(
        (p, a),
        (SessionPhase::Scanning, SessionAction::Scan { after_secs: CYCLE_PAUSE_SECS })
    );
    let (p, a) = on_event(p, SessionEvent::Error);
    assert_eq!((p, a), (SessionPhase::Failed, SessionAction::Backoff { secs: RESTART_SECS }));
    let (p, _) = on_event(p, SessionEvent::BackoffElapsed);
    assert_eq!(p, SessionPhase::Connecting);
    let (p, _) = on_event(SessionPhase::Scanning, SessionEvent::Connected);
    assert_eq!(p, SessionPhase::Failed);
}
