use vstd::prelude::*;

use crate::net::Mac;
use crate::text::{hex2_rep, push_char, push_hex2_u8};

verus! {

/// The textual form of a MAC address: six zero-padded lower-case
/// hexadecimal octets joined by colons.
pub open spec fn mac_text(m: Mac) -> Seq<char> {
    hex2_rep(m.o0) + seq![':'] + hex2_rep(m.o1) + seq![':'] + hex2_rep(m.o2) + seq![':']
        + hex2_rep(m.o3) + seq![':'] + hex2_rep(m.o4) + seq![':'] + hex2_rep(m.o5)
}

pub fn mac_to_string(m: &Mac) -> (r: String)
    ensures
        r@ == mac_text(*m),
{
    let mut s = String::new();
    push_hex2_u8(&mut s, m.o0);
    push_char(&mut s, ':');
    push_hex2_u8(&mut s, m.o1);
    push_char(&mut s, ':');
    push_hex2_u8(&mut s, m.o2);
    push_char(&mut s, ':');
    push_hex2_u8(&mut s, m.o3);
    push_char(&mut s, ':');
    push_hex2_u8(&mut s, m.o4);
    push_char(&mut s, ':');
    push_hex2_u8(&mut s, m.o5);
    proof {
        assert(s@ =~= mac_text(*m));
    }
    s
}

/// The vendor name that the bundled OUI database gives for a MAC address
/// in textual form, if any. The database is fixed at build time, so the
/// result depends on the text alone.
pub uninterp spec fn vendor_of(mac_text: Seq<char>) -> Option<Seq<char>>;

/// Relies on mac_oui::Oui::default and Oui::lookup_by_mac: loads the
/// embedded OUI table and looks the address up; the outcome is a function
/// of the given text alone.
#[verifier::external_body]
fn oui_lookup(mac_str: &str) -> (r: Option<String>)
    ensures
        r is Some <==> vendor_of(mac_str@) is Some,
        r is Some ==> r->0@ == vendor_of(mac_str@)->0,
{
    match mac_oui::Oui::default() {
        Ok(db) => match db.lookup_by_mac(mac_str) {
            Ok(Some(entry)) => Some(entry.company_name.clone()),
            _ => None,
        },
        Err(_) => None,
    }
}

/// The vendor recorded for this hardware address, when the OUI table
/// knows its prefix.
pub fn get_vendor(mac: &Mac) -> (r: Option<String>)
    ensures
        r is Some <==> vendor_of(mac_text(*mac)) is Some,
        r is Some ==> r->0@ == vendor_of(mac_text(*mac))->0,
{
    let s = mac_to_string(mac);
    oui_lookup(s.as_str())
}

} // verus!
