//! What a failed search is reported as, and where a game's cover picture is.
use vstd::prelude::*;
use crate::text::{concat, concat3, contains_text, contains_str, lower_text};

verus! {

/// The report of a failed search, by what its error says (case ignored): a
/// refused key, a rate limit, a network failure, or the error itself.
pub open spec fn search_error_text(err: Seq<char>) -> Seq<char> {
    let e = lower_text(err);
    if contains_text(e, "401"@) || contains_text(e, "403"@) || contains_text(e, "unauthorized"@) || contains_text(e, "forbidden"@) {
        "INVALID_KEY: Your API key is invalid or expired. Check Settings."@
    } else if contains_text(e, "429"@) || contains_text(e, "rate"@) || contains_text(e, "too many"@) {
        "RATE_LIMIT: Rate limit exceeded. Please wait a moment."@
    } else if contains_text(e, "timeout"@) || contains_text(e, "connect"@) || contains_text(e, "dns"@) || contains_text(e, "network"@) {
        "NETWORK_ERROR: Could not reach the server. Check your connection."@
    } else {
        "SEARCH_ERROR: "@ + err
    }
}

pub fn search_error_message(err: &str) -> (r: String)
    ensures
        r@ == search_error_text(err@),
{
    let e = crate::text::to_lowercase_text(err);
    if contains_str(&e, "401") || contains_str(&e, "403") || contains_str(&e, "unauthorized") || contains_str(&e, "forbidden") {
        "INVALID_KEY: Your API key is invalid or expired. Check Settings.".to_string()
    } else if contains_str(&e, "429") || contains_str(&e, "rate") || contains_str(&e, "too many") {
        "RATE_LIMIT: Rate limit exceeded. Please wait a moment.".to_string()
    } else if contains_str(&e, "timeout") || contains_str(&e, "connect") || contains_str(&e, "dns") || contains_str(&e, "network") {
        "NETWORK_ERROR: Could not reach the server. Check your connection.".to_string()
    } else {
        concat("SEARCH_ERROR: ", err)
    }
}

/// The address of a game's header picture.
pub fn get_cover_url(appid: &str) -> (r: String)
    ensures
        r@ == "https://cdn.cloudflare.steamstatic.com/steam/apps/"@ + appid@ + "/header.jpg"@,
{
    concat3("https://cdn.cloudflare.steamstatic.com/steam/apps/", appid, "/header.jpg")
}

} // verus!
