//! Watches a classifieds search page: extracts listings from scraped cards,
//! reports the listings that are new since the previous scan, and decides how
//! outreach and session recovery proceed.
pub mod cookies;
pub mod listing;
pub mod outreach;
pub mod price;
pub mod scan;
pub mod supervisor;

pub use cookies::{resolve_all, resolve_lifetime, CookieError, CookieLifetime, CookieRecord};
pub use listing::{extract_listings, Listing, RawCard, Snapshot};
pub use outreach::{
    contact_message, detail_url, notification_body, FailurePolicy, OutreachRun, MESSAGE_TAIL,
};
pub use price::{parse_price, Price, PriceError};
pub use scan::{diff, ScanState};
pub use supervisor::{
    on_event, SessionAction, SessionEvent, SessionPhase, CONNECT_RETRY_SECS, CYCLE_PAUSE_SECS,
    RESTART_SECS, SETTLE_SECS,
};
