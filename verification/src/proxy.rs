//! Decisions of a forward proxy that refuses advertising hosts: from the head
//! of a request to what is to be done with it.

use vstd::prelude::*;

use crate::text::{str_chars, extend_chars};

verus! {

broadcast use vstd::string::group_string_axioms;

/// The request methods that the services tell apart.
#[derive(Clone, Copy, Debug, PartialEq, Eq, Structural)]
pub enum Method {
    Get,
    Post,
    Connect,
    Other,
}

/// What the proxy reads of a request: its method, the host, authority and
/// port of its URI where the URI has them, and its `host` header as text.
pub struct RequestHead {
    pub method: Method,
    pub uri_host: Option<String>,
    pub uri_authority: Option<String>,
    pub uri_port: Option<u16>,
    pub host_header: Option<String>,
}

/// What the proxy does with a request.
#[derive(Debug)]
pub enum ProxyAction {
    /// Answer with an empty response: the host is refused.
    Blocked,
    /// Answer with an empty response and tunnel the upgraded connection to
    /// this address.
    Tunnel(String),
    /// Answer `400 Bad Request`: a `CONNECT` whose URI has no authority.
    BadRequest,
    /// Send the request on to the server at this address.
    Forward(String),
}

/// `ProxyAction` with its addresses as character sequences.
pub enum ProxyDecision {
    Blocked,
    Tunnel(Seq<char>),
    BadRequest,
    Forward(Seq<char>),
}

impl View for ProxyAction {
    type V = ProxyDecision;

    open spec fn view(&self) -> ProxyDecision {
        match self {
            ProxyAction::Blocked => ProxyDecision::Blocked,
            ProxyAction::Tunnel(a) => ProxyDecision::Tunnel(a@),
            ProxyAction::BadRequest => ProxyDecision::BadRequest,
            ProxyAction::Forward(a) => ProxyDecision::Forward(a@),
        }
    }
}

/// The hosts that the proxy refuses: a request is refused when its host
/// contains one of these.
pub open spec fn spec_blocked_sites() -> Seq<Seq<char>> {
    seq![
        "googleads.g.doubleclick.net"@,
        "analytics.google.com"@,
        "c.amazon-adsystem.com"@,
        "www.googleadservices.com"@,
        "d27xxe7juh1us6.cloudfront.net"@,
        "clients4.google.com"@,
        "cdnads.geeksforgeeks.org"@,
        "fundingchoicesmessages.google.com"@,
        "ap.lijit.com"@,
        "ib.adnxs.com"@,
        "gum.criteo.com"@,
        "bidder.criteo.com"@,
        "prg-apac.smartadserver.com"@,
    ]
}

/// The refused hosts.
pub fn blocked_sites() -> (v: Vec<&'static str>)
    ensures
        v@.len() == spec_blocked_sites().len(),
        forall|k: int| 0 <= k < v@.len() ==> (#[trigger] v@[k])@ == spec_blocked_sites()[k],
{
    let v = vec![
        "googleads.g.doubleclick.net",
        "analytics.google.com",
        "c.amazon-adsystem.com",
        "www.googleadservices.com",
        "d27xxe7juh1us6.cloudfront.net",
        "clients4.google.com",
        "cdnads.geeksforgeeks.org",
        "fundingchoicesmessages.google.com",
        "ap.lijit.com",
        "ib.adnxs.com",
        "gum.criteo.com",
        "bidder.criteo.com",
        "prg-apac.smartadserver.com",
    ];
    v
}

/// Whether `p` occurs in `s` as a contiguous piece.
pub open spec fn contains_sub(s: Seq<char>, p: Seq<char>) -> bool {
    exists|i: int| 0 <= i <= s.len() - p.len() && #[trigger] s.subrange(i, i + p.len()) == p
}

/// Whether the host `h` contains one of the refused hosts.
pub open spec fn is_blocked(h: Seq<char>) -> bool {
    exists|k: int|
        0 <= k < spec_blocked_sites().len() && contains_sub(h, #[trigger] spec_blocked_sites()[k])
}

/// The decimal digit for `d < 10`.
pub open spec fn digit(d: int) -> char {
    (48 + d) as char
}

/// The decimal representation of `n`, without leading zeros.
pub open spec fn decimal(n: nat) -> Seq<char>
    decreases n,
{
    if n < 10 {
        seq![digit(n as int)]
    } else {
        decimal(n / 10).push(digit((n % 10) as int))
    }
}

/// The host the request is for: the URI's host, else the `host` header.
pub open spec fn request_host(head: RequestHead) -> Seq<char> {
    match head.uri_host {
        Some(h) => h@,
        None => head.host_header.unwrap()@,
    }
}

/// The address a request is forwarded to: the host if it names a port,
/// else the host, `:` and the URI's port (80 where the URI has none).
pub open spec fn forward_address(host: Seq<char>, port: Option<u16>) -> Seq<char> {
    if contains_sub(host, seq![':']) {
        host
    } else {
        host + seq![':'] + decimal(
            match port {
                Some(p) => p as nat,
                None => 80,
            },
        )
    }
}

/// What the proxy decides for a request.
pub open spec fn spec_proxy(head: RequestHead) -> ProxyDecision {
    let host = request_host(head);
    if is_blocked(host) {
        ProxyDecision::Blocked
    } else if head.method == Method::Connect {
        match head.uri_authority {
            Some(a) => ProxyDecision::Tunnel(a@),
            None => ProxyDecision::BadRequest,
        }
    } else {
        ProxyDecision::Forward(forward_address(host, head.uri_port))
    }
}

/// A request for a refused host is refused, whatever its method, URI and
/// port.
pub proof fn lemma_refused_whatever_the_method(head: RequestHead)
    requires
        is_blocked(request_host(head)),
    ensures
        spec_proxy(head) == ProxyDecision::Blocked,
{
}

/// Every one of the thirteen refused sites refuses every host that contains
/// it, whatever else the host holds around it: a request for such a host
/// is answered `Blocked`, whatever its method.
pub proof fn lemma_every_listed_site_refused(head: RequestHead, k: int, a: Seq<char>, b: Seq<char>)
    requires
        0 <= k < spec_blocked_sites().len(),
        request_host(head) == a + spec_blocked_sites()[k] + b,
    ensures
        spec_blocked_sites().len() == 13,
        is_blocked(request_host(head)),
        spec_proxy(head) == ProxyDecision::Blocked,
{
    let p = spec_blocked_sites()[k];
    let h = request_host(head);
    let i = a.len() as int;
    assert(h.subrange(i, i + p.len()) =~= p);
}

/// What each outcome of the proxy tells of the request: a refused request's
/// host holds a refused site; only a `CONNECT` request is tunnelled, and
/// to its URI's authority; only a `CONNECT` request without authority is
/// rejected; any other request that is not refused is forwarded, to an
/// address that starts with its host and names a port.
pub proof fn lemma_proxy_outcomes(head: RequestHead)
    ensures
        spec_proxy(head) == ProxyDecision::Blocked <==> is_blocked(request_host(head)),
        spec_proxy(head) matches ProxyDecision::Tunnel(a) ==> head.method == Method::Connect
            && (head.uri_authority matches Some(x) && x@ == a),
        spec_proxy(head) == ProxyDecision::BadRequest ==> head.method == Method::Connect
            && head.uri_authority is None,
        spec_proxy(head) matches ProxyDecision::Forward(a) ==> head.method != Method::Connect
            && a.take(request_host(head).len() as int) == request_host(head) && contains_sub(
            a,
            seq![':'],
        ),
        !is_blocked(request_host(head)) && head.method != Method::Connect ==> spec_proxy(
            head,
        ) is Forward,
{
    let h = request_host(head);
    lemma_forward_address_has_port(h, head.uri_port);
    let a = forward_address(h, head.uri_port);
    assert(a.take(h.len() as int) =~= h);
}

/// The digits of `s` read as a decimal number.
pub open spec fn decimal_value(s: Seq<char>) -> int
    decreases s.len(),
{
    if s.len() == 0 {
        0
    } else {
        decimal_value(s.drop_last()) * 10 + (s.last() as int - 48)
    }
}

/// The decimal representation of `n` consists of digits, has no leading
/// zero unless it is `0`, and reads back as `n`.
pub proof fn lemma_decimal(n: nat)
    ensures
        decimal_value(decimal(n)) == n,
        decimal(n).len() >= 1,
        forall|i: int| 0 <= i < decimal(n).len() ==> '0' <= #[trigger] decimal(n)[i] <= '9',
        decimal(n)[0] == '0' ==> n == 0,
    decreases n,
{
    if n < 10 {
        assert(decimal(n) =~= seq![digit(n as int)]);
        assert(seq![digit(n as int)].drop_last() =~= Seq::<char>::empty());
        assert(digit(n as int) as int == 48 + n);
        assert(decimal(n).drop_last() =~= Seq::<char>::empty());
        assert(decimal_value(decimal(n)) == decimal_value(Seq::<char>::empty()) * 10 + (digit(
            n as int,
        ) as int - 48));
    } else {
        lemma_decimal(n / 10);
        let d = decimal(n / 10);
        let c = digit((n % 10) as int);
        assert(decimal(n) == d.push(c));
        assert(d.push(c).drop_last() =~= d);
        assert((n / 10) * 10 + n % 10 == n) by (nonlinear_arith);
        assert(c as int == 48 + n % 10);
        assert(decimal(n).drop_last() == d);
        assert(decimal(n).last() == c);
        assert(decimal_value(decimal(n)) == decimal_value(d) * 10 + (c as int - 48));
        assert(decimal_value(d) == n / 10);
        assert forall|i: int| 0 <= i < decimal(n).len() implies '0' <= #[trigger] decimal(n)[i]
            <= '9' by {
            if i < d.len() {
                assert(decimal(n)[i] == d[i]);
            }
        }
        assert(decimal(n)[0] == d[0]);
    }
}

/// A host that holds a refused host inside it is refused too.
pub proof fn lemma_blocked_grows(h: Seq<char>, a: Seq<char>, b: Seq<char>)
    requires
        is_blocked(h),
    ensures
        is_blocked(a + h + b),
{
    let k = choose|k: int|
        0 <= k < spec_blocked_sites().len() && contains_sub(h, #[trigger] spec_blocked_sites()[k]);
    let p = spec_blocked_sites()[k];
    let i = choose|i: int| 0 <= i <= h.len() - p.len() && #[trigger] h.subrange(i, i + p.len()) == p;
    let x = a + h + b;
    let m = a.len() + i;
    assert(x.subrange(m, m + p.len()) =~= p) by {
        assert forall|t: int| 0 <= t < p.len() implies x.subrange(m, m + p.len())[t] == p[t] by {
            assert(x[m + t] == h[i + t]);
            assert(h.subrange(i, i + p.len())[t] == h[i + t]);
        }
    }
    assert(contains_sub(x, p));
}

/// A forwarded request always goes to an address that names a port: the
/// address holds a `:`.
pub proof fn lemma_forward_address_has_port(host: Seq<char>, port: Option<u16>)
    ensures
        contains_sub(forward_address(host, port), seq![':']),
{
    if !contains_sub(host, seq![':']) {
        let a = forward_address(host, port);
        let i = host.len() as int;
        assert(a.subrange(i, i + 1) =~= seq![':']);
    }
}

/// Whether `p` occurs in `s`.
pub fn contains_chars(s: &[char], p: &[char]) -> (r: bool)
    ensures
        r == contains_sub(s@, p@),
{
    if p.len() > s.len() {
        assert(!contains_sub(s@, p@)) by {
            if contains_sub(s@, p@) {
                let i = choose|i: int|
                    0 <= i <= s@.len() - p@.len() && #[trigger] s@.subrange(i, i + p@.len())
                        == p@;
            }
        }
        return false;
    }
    let last = s.len() - p.len();
    let n = s.len();
    let mut i: usize = 0;
    loop
        invariant
            n == s@.len(),
            last == s@.len() - p@.len(),
            i <= last,
            forall|j: int| 0 <= j < i ==> #[trigger] s@.subrange(j, j + p@.len()) != p@,
        decreases last - i,
    {
        let mut k: usize = 0;
        let mut same = true;
        while k < p.len()
            invariant
                n == s@.len(),
                i <= last,
                last == s@.len() - p@.len(),
                k <= p@.len(),
                same == (forall|m: int| 0 <= m < k ==> s@[i + m] == p@[m]),
            decreases p@.len() - k,
        {
            if s[i + k] != p[k] {
                same = false;
            }
            k += 1;
        }
        if same {
            assert(s@.subrange(i as int, i + p@.len()) =~= p@);
            return true;
        }
        assert(s@.subrange(i as int, i + p@.len()) != p@) by {
            let m = choose|m: int| 0 <= m < p@.len() && s@[i + m] != p@[m];
            assert(s@.subrange(i as int, i + p@.len())[m] == s@[i + m]);
        }
        if i == last {
            return false;
        }
        i += 1;
    }
}

/// Whether the host `host` contains one of the refused hosts.
pub fn host_is_blocked(host: &[char]) -> (r: bool)
    ensures
        r == is_blocked(host@),
        forall|k: int|
            0 <= k < spec_blocked_sites().len() && contains_sub(
                host@,
                #[trigger] spec_blocked_sites()[k],
            ) ==> r,
        r ==> exists|k: int|
            0 <= k < spec_blocked_sites().len() && contains_sub(
                host@,
                #[trigger] spec_blocked_sites()[k],
            ),
{
    let sites = blocked_sites();
    for k in 0..sites.len()
        invariant
            sites@.len() == spec_blocked_sites().len(),
            forall|j: int| 0 <= j < sites@.len() ==> (#[trigger] sites@[j])@ == spec_blocked_sites()[j],
            forall|j: int| 0 <= j < k ==> !contains_sub(host@, #[trigger] spec_blocked_sites()[j]),
    {
        let site = str_chars(sites[k]);
        if contains_chars(host, site.as_slice()) {
            return true;
        }
    }
    false
}

/// Appends the decimal representation of `n` to `out`.
pub fn push_decimal(out: &mut Vec<char>, n: u16)
    ensures
        final(out)@ == old(out)@ + decimal(n as nat),
    decreases n,
{
    if n >= 10 {
        push_decimal(out, n / 10);
    }
    let d = (n % 10) as u8;
    out.push((48u8 + d) as char);
    assert(old(out)@ + decimal(n as nat) =~= if n >= 10 {
        old(out)@ + decimal((n / 10) as nat) + seq![digit((n % 10) as int)]
    } else {
        old(out)@ + seq![digit(n as int)]
    });
}

/// The address to forward a request for `host` to.
pub fn address_for(host: &[char], port: Option<u16>) -> (a: Vec<char>)
    ensures
        a@ == forward_address(host@, port),
{
    let colon = [':'];
    let mut a: Vec<char> = Vec::new();
    extend_chars(&mut a, host);
    assert(colon@ =~= seq![':']);
    if contains_chars(host, &colon) {
        return a;
    }
    a.push(':');
    let p = match port {
        Some(p) => p,
        None => 80,
    };
    push_decimal(&mut a, p);
    a
}

/// Decides what the proxy does with a request.
///
/// The host is the URI's host, else the `host` header. A host that contains
/// one of the refused hosts is answered with an empty response. A `CONNECT`
/// request is tunnelled to its URI's authority, or answered with
/// `400 Bad Request` where the URI has none. Any other request is forwarded to
/// the host, with the URI's port (80 where there is none) unless the host
/// already names one.
pub fn proxy(head: &RequestHead) -> (r: ProxyAction)
    requires
        head.uri_host is Some || head.host_header is Some,
    ensures
        r@ == spec_proxy(*head),
{
    let host = match &head.uri_host {
        Some(t) => str_chars(t.as_str()),
        None => match &head.host_header {
            Some(t) => str_chars(t.as_str()),
            None => Vec::new(),
        },
    };
    // block sites
    if host_is_blocked(host.as_slice()) {
        return ProxyAction::Blocked;
    }
    if head.method == Method::Connect {
        return match &head.uri_authority {
            Some(a) => ProxyAction::Tunnel(a.clone()),
            None => ProxyAction::BadRequest,
        };
    }
    let address = address_for(host.as_slice(), head.uri_port);
    ProxyAction::Forward(crate::text::string_from_chars(address.as_slice()))
}

} // verus!
