//! Addresses of a room's endpoints on a host.
use vstd::prelude::*;

verus! {

/// The decimal digit for `d`, below ten.
pub open spec fn digit(d: nat) -> char {
    if d == 0 { '0' } else if d == 1 { '1' } else if d == 2 { '2' } else if d == 3 { '3' } else if d == 4 { '4' }
    else if d == 5 { '5' } else if d == 6 { '6' } else if d == 7 { '7' } else if d == 8 { '8' } else { '9' }
}

/// `n` written in decimal, without leading zeros.
pub open spec fn decimal(n: nat) -> Seq<char>
    decreases n,
{
    if n < 10 {
        seq![digit(n)]
    } else {
        decimal(n / 10).push(digit(n % 10))
    }
}

/// Each route preceded by a slash, in order.
pub open spec fn path_of(routes: Seq<Seq<char>>) -> Seq<char>
    decreases routes.len(),
{
    if routes.len() == 0 {
        Seq::empty()
    } else {
        path_of(routes.drop_last()) + seq!['/'] + routes.last()
    }
}

/// A URL without query: the protocol, `://`, the host, a colon and the
/// port unless the port is 0, then the path of the routes.
pub open spec fn url_text(protocol: Seq<char>, host: Seq<char>, port: u16, routes: Seq<Seq<char>>) -> Seq<char> {
    protocol + seq![':', '/', '/'] + host + (if port == 0 {
        Seq::empty()
    } else {
        seq![':'] + decimal(port as nat)
    }) + path_of(routes)
}

/// Relies on `url_builder::URLBuilder` (`new`, `set_protocol`, `set_host`,
/// `set_port`, `add_route`, `build`): with no query parameter, `build`
/// writes the protocol, `://`, the host, `:` and the port in decimal unless
/// it is 0, then `/` and each route in the order added.
#[verifier::external_body]
fn build_url(protocol: &str, host: &str, port: u16, first: &str, second: &str, third: &str) -> (r: String)
    ensures
        r@ == url_text(protocol@, host@, port, seq![first@, second@, third@]),
{
    let mut ub = url_builder::URLBuilder::new();
    ub.set_protocol(protocol).set_host(host).set_port(port).add_route(first).add_route(second).add_route(third);
    ub.build()
}

/// The URL of `action` (`listen` or `click`) in room `room_id` on a host.
pub fn build_room_url(protocol: &str, address: &str, port: u16, room_id: &str, action: &str) -> (r: String)
    ensures
        r@ == url_text(protocol@, address@, port, seq![seq!['a', 'p', 'i'], room_id@, action@]),
{
    let api = "api";
    proof {
        reveal_strlit("api");
    }
    assert(api@ == seq!['a', 'p', 'i']);
    build_url(protocol, address, port, api, room_id, action)
}

} // verus!
