//! What is said once the server is up.

use vstd::prelude::*;

use crate::args::{option_view, strings_view};
use crate::log::{info, warn};
use crate::text::{decimal, push_decimal, push_text};

verus! {

/// The host that links name: "localhost" where the server listens on every
/// address, else the address it listens on.
pub fn link_host(every_address: bool, address: &str) -> (host: String)
    ensures
        host@ == (if every_address {
            "localhost"@
        } else {
            address@
        }),
{
    if every_address {
        "localhost".to_owned()
    } else {
        address.to_owned()
    }
}

/// The address of the start page.
pub open spec fn page_address(host: Seq<char>, port: u16) -> Seq<char> {
    "http://"@ + host + ":"@ + decimal(port as nat) + "/"@
}

/// The links: one that lands straight on the desktop and the bare one for anyone
/// who would rather type the password into the prompt, or a warning where there
/// is no password.
pub open spec fn link_lines(page: Seq<char>, password: Option<Seq<char>>) -> Seq<Seq<char>> {
    match password {
        Some(p) => seq![
            "rvnc: "@ + ("open "@ + page + "?password="@ + p),
            "rvnc: "@ + ("  or "@ + page + " and enter: "@ + p),
        ],
        None => seq![
            "rvnc: "@ + ("open "@ + page),
            "rvnc: warning: "@ + "no password: anyone who can reach this port has the desktop"@,
        ],
    }
}

/// Which display is served.
pub open spec fn display_line(display: Seq<char>, width: u32, height: u32) -> Seq<char> {
    "rvnc: "@ + ("serving X display "@ + display + " ("@ + decimal(width as nat) + "x"@ + decimal(
        height as nat,
    ) + ")"@)
}

/// Everything that is said.
pub open spec fn startup_text(
    display: Seq<char>,
    width: u32,
    height: u32,
    host: Seq<char>,
    port: u16,
    password: Option<Seq<char>>,
    view_only: bool,
) -> Seq<Seq<char>> {
    seq![display_line(display, width, height)] + link_lines(page_address(host, port), password) + (
    if view_only {
        seq!["rvnc: "@ + "view-only: client input is ignored"@]
    } else {
        seq![]
    })
}

fn page(host: &str, port: u16) -> (s: String)
    ensures
        s@ == page_address(host@, port),
{
    let mut s: String = "http://".to_owned();
    push_text(&mut s, host);
    push_text(&mut s, ":");
    push_decimal(&mut s, port as u64);
    push_text(&mut s, "/");
    s
}

/// A line that begins with `start`, goes on with the address of the page and ends
/// with `middle` and `end`.
fn link_line(start: &str, page: &str, middle: &str, end: &str) -> (line: String)
    ensures
        line@ == "rvnc: "@ + (start@ + page@ + middle@ + end@),
{
    let mut s: String = start.to_owned();
    push_text(&mut s, page);
    push_text(&mut s, middle);
    push_text(&mut s, end);
    info(s.as_str())
}

/// The lines to print once the server is up.
pub fn startup_lines(
    display: &str,
    width: u32,
    height: u32,
    host: &str,
    port: u16,
    password: &Option<String>,
    view_only: bool,
) -> (v: Vec<String>)
    ensures
        strings_view(v@) == startup_text(
            display@,
            width,
            height,
            host@,
            port,
            option_view(*password),
            view_only,
        ),
{
    let mut first: String = "serving X display ".to_owned();
    push_text(&mut first, display);
    push_text(&mut first, " (");
    push_decimal(&mut first, width as u64);
    push_text(&mut first, "x");
    push_decimal(&mut first, height as u64);
    push_text(&mut first, ")");
    let page: String = page(host, port);
    let mut v: Vec<String> = vec![info(first.as_str())];
    match password {
        Some(p) => {
            v.push(link_line("open ", page.as_str(), "?password=", p.as_str()));
            v.push(link_line("  or ", page.as_str(), " and enter: ", p.as_str()));
        },
        None => {
            let mut open: String = "open ".to_owned();
            push_text(&mut open, page.as_str());
            v.push(info(open.as_str()));
            v.push(warn("no password: anyone who can reach this port has the desktop"));
        },
    }
    if view_only {
        v.push(info("view-only: client input is ignored"));
    }
    let ghost want = startup_text(
        display@,
        width,
        height,
        host@,
        port,
        option_view(*password),
        view_only,
    );
    assert(strings_view(v@) =~= want);
    v
}

/// With a password the first link opens the desktop by itself and the second without
/// it, with the password to type in beside it; without one there is one link and a
/// warning. Every link goes to the start page on its host and port.
pub proof fn lemma_links_lead_to_the_desktop(
    display: Seq<char>,
    width: u32,
    height: u32,
    host: Seq<char>,
    port: u16,
    password: Option<Seq<char>>,
    view_only: bool,
)
    ensures
        ({
            let v = startup_text(display, width, height, host, port, password, view_only);
            let site = host + seq![':'] + decimal(port as nat) + seq!['/'];
            &&& v.len() == 3 + (if view_only {
                1int
            } else {
                0
            })
            &&& v[0] == "rvnc: serving X display "@ + display + seq![' ', '('] + decimal(
                width as nat,
            ) + seq!['x'] + decimal(height as nat) + seq![')']
            &&& password matches Some(p) ==> v[1] == "rvnc: open http://"@ + site + "?password="@ + p
                && v[2] == "rvnc:   or http://"@ + site + " and enter: "@ + p
            &&& password is None ==> v[1] == "rvnc: open http://"@ + site && v[2]
                == "rvnc: warning: no password: anyone who can reach this port has the desktop"@
            &&& view_only ==> v[3] == "rvnc: view-only: client input is ignored"@
        }),
{
    reveal_strlit("rvnc: ");
    reveal_strlit("rvnc: serving X display ");
    reveal_strlit("serving X display ");
    reveal_strlit(" (");
    reveal_strlit("x");
    reveal_strlit(")");
    reveal_strlit("rvnc: open http://");
    reveal_strlit("rvnc:   or http://");
    reveal_strlit("open ");
    reveal_strlit("  or ");
    reveal_strlit("http://");
    reveal_strlit(":");
    reveal_strlit("/");
    reveal_strlit("rvnc: warning: ");
    reveal_strlit("no password: anyone who can reach this port has the desktop");
    reveal_strlit("rvnc: warning: no password: anyone who can reach this port has the desktop");
    reveal_strlit("view-only: client input is ignored");
    reveal_strlit("rvnc: view-only: client input is ignored");
    let v = startup_text(display, width, height, host, port, password, view_only);
    let site = host + seq![':'] + decimal(port as nat) + seq!['/'];
    assert("rvnc: "@ + "serving X display "@ =~= "rvnc: serving X display "@);
    assert("rvnc: "@ + "open "@ + "http://"@ =~= "rvnc: open http://"@);
    assert("rvnc: "@ + "  or "@ + "http://"@ =~= "rvnc:   or http://"@);
    assert(v[0] =~= "rvnc: serving X display "@ + display + seq![' ', '('] + decimal(width as nat)
        + seq!['x'] + decimal(height as nat) + seq![')']);
    match password {
        Some(p) => {
            assert(v[1] =~= "rvnc: open http://"@ + site + "?password="@ + p);
            assert(v[2] =~= "rvnc:   or http://"@ + site + " and enter: "@ + p);
        },
        None => {
            assert(v[1] =~= "rvnc: open http://"@ + site);
            assert(v[2]
                =~= "rvnc: warning: no password: anyone who can reach this port has the desktop"@);
        },
    }
    if view_only {
        assert(v[3] =~= "rvnc: view-only: client input is ignored"@);
    }
}

} // verus!
