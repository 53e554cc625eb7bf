//! The DHCP daemon's declarative configuration and its line-oriented codec.
//!
//! The file format is permissive by design: only a handful of directives are
//! modeled as typed fields (`interface`, `start`, `end`, `option subnet`,
//! `option router`, `option dns`, `static_lease`); blank lines and `#`
//! comments are skipped; every other line is kept verbatim in
//! `remaining_lines` and re-emitted on write, so unknown directives are never
//! silently dropped. A malformed IPv4 token fails the whole parse with an
//! error naming the offending token — a failed parse never leaks a partial
//! configuration.

use vstd::prelude::*;
use crate::ipv4::{
    format_ipv4, ipv4_chars, lemma_ipv4_chars_wf, lemma_ipv4_roundtrip, parse_ipv4,
    spec_parse_ipv4, Ipv4Addr,
};
use crate::text::{
    is_space, lemma_lines_cons, lemma_tokens_nonempty, lemma_tokens_single,
    lemma_tokens_word_space, spec_lines, spec_tokens, split_lines, str_eq, tokens_of,
};

verus! {

/// Errors surfaced by the DHCP configuration codec and the daemon
/// supervisor. Payloads carry plain text (or the raw errno for a failed
/// signal) so that the shell around the library can report them.
#[derive(Debug)]
pub enum UdhcpdError {
    /// A file could not be read, written or created.
    Io(String),
    /// The daemon is already running, or spawning it failed.
    Process(String),
    /// The PID file is missing or does not hold a decimal process id.
    PidFile(String),
    /// A configuration line could not be parsed.
    ConfigParse(String),
    /// Delivering a signal failed; the payload is the raw errno.
    Signal(i32),
    /// An IPv4 token is malformed; the payload is the offending token.
    InvalidIp(String),
    /// A caller-supplied value was rejected before reaching the core.
    InvalidInput(String),
}

impl UdhcpdError {
    /// The HTTP-style status class each error maps to at the API boundary:
    /// conflict for an already-running daemon, not-found for a missing PID
    /// file, bad-request for malformed input, internal error otherwise.
    pub fn status_code(&self) -> (code: u16)
        ensures
            code == match self {
                UdhcpdError::Io(_) => 500u16,
                UdhcpdError::Process(_) => 409u16,
                UdhcpdError::PidFile(_) => 404u16,
                UdhcpdError::ConfigParse(_) => 500u16,
                UdhcpdError::Signal(_) => 500u16,
                UdhcpdError::InvalidIp(_) => 400u16,
                UdhcpdError::InvalidInput(_) => 400u16,
            },
    {
        match self {
            UdhcpdError::Io(_) => 500,
            UdhcpdError::Process(_) => 409,
            UdhcpdError::PidFile(_) => 404,
            UdhcpdError::ConfigParse(_) => 500,
            UdhcpdError::Signal(_) => 500,
            UdhcpdError::InvalidIp(_) => 400,
            UdhcpdError::InvalidInput(_) => 400,
        }
    }
}

/// A fixed MAC-to-IP assignment the daemon must always honor. The MAC is an
/// opaque identifier: it is never normalized, and leases are matched by
/// exact string equality.
#[derive(Debug)]
pub struct StaticLease {
    pub mac: String,
    pub ip: Ipv4Addr,
}

pub struct StaticLeaseView {
    pub mac: Seq<char>,
    pub ip: Ipv4Addr,
}

impl View for StaticLease {
    type V = StaticLeaseView;

    open spec fn view(&self) -> StaticLeaseView {
        StaticLeaseView { mac: self.mac@, ip: self.ip }
    }
}

impl Clone for StaticLease {
    fn clone(&self) -> (r: Self)
        ensures
            r@ == self@,
    {
        StaticLease { mac: self.mac.clone(), ip: self.ip }
    }
}

/// The complete declarative configuration of the DHCP daemon.
#[derive(Debug)]
pub struct UdhcpdConfig {
    pub start: Option<Ipv4Addr>,
    pub end: Option<Ipv4Addr>,
    pub interface: Option<String>,
    pub subnet_mask: Option<Ipv4Addr>,
    pub dns_servers: Vec<Ipv4Addr>,
    pub router: Option<Ipv4Addr>,
    pub static_leases: Vec<StaticLease>,
    /// Every line the parser did not recognize, verbatim and in order.
    pub remaining_lines: Vec<String>,
}

#[verifier::ext_equal]
pub struct UdhcpdConfigView {
    pub start: Option<Ipv4Addr>,
    pub end: Option<Ipv4Addr>,
    pub interface: Option<Seq<char>>,
    pub subnet_mask: Option<Ipv4Addr>,
    pub dns_servers: Seq<Ipv4Addr>,
    pub router: Option<Ipv4Addr>,
    pub static_leases: Seq<StaticLeaseView>,
    pub remaining_lines: Seq<Seq<char>>,
}

impl View for UdhcpdConfig {
    type V = UdhcpdConfigView;

    open spec fn view(&self) -> UdhcpdConfigView {
        UdhcpdConfigView {
            start: self.start,
            end: self.end,
            interface: match self.interface {
                Some(s) => Some(s@),
                None => None,
            },
            subnet_mask: self.subnet_mask,
            dns_servers: self.dns_servers@,
            router: self.router,
            static_leases: self.static_leases@.map_values(|l: StaticLease| l@),
            remaining_lines: self.remaining_lines.deep_view(),
        }
    }
}

pub open spec fn empty_config() -> UdhcpdConfigView {
    UdhcpdConfigView {
        start: None,
        end: None,
        interface: None,
        subnet_mask: None,
        dns_servers: Seq::empty(),
        router: None,
        static_leases: Seq::empty(),
        remaining_lines: Seq::empty(),
    }
}

impl Default for UdhcpdConfig {
    /// The configuration with nothing set: no range, no interface, no DNS
    /// servers, no leases, no passthrough lines.
    fn default() -> (r: Self)
        ensures
            r@ == empty_config(),
    {
        let r = UdhcpdConfig {
            start: None,
            end: None,
            interface: None,
            subnet_mask: None,
            dns_servers: Vec::new(),
            router: None,
            static_leases: Vec::new(),
            remaining_lines: Vec::new(),
        };
        proof {
            assert(r@ =~= empty_config());
        }
        r
    }
}

// ---------------------------------------------------------------------------
// Parsing: specification
// ---------------------------------------------------------------------------

/// What one line of the file means.
pub enum LineAction {
    /// Blank line or `#` comment.
    Skip,
    SetStart(Ipv4Addr),
    SetEnd(Ipv4Addr),
    SetInterface(Seq<char>),
    SetSubnet(Ipv4Addr),
    SetDns(Seq<Ipv4Addr>),
    SetRouter(Ipv4Addr),
    AddLease(Seq<char>, Ipv4Addr),
    /// Unrecognized: preserved verbatim.
    Pass(Seq<char>),
    /// A malformed IPv4 token; the whole parse fails with this token.
    BadIp(Seq<char>),
}

/// Parses a run of IPv4 tokens; the error is the first malformed token.
pub open spec fn parse_ip_list(toks: Seq<Seq<char>>) -> Result<Seq<Ipv4Addr>, Seq<char>>
    decreases toks.len(),
{
    if toks.len() == 0 {
        Ok(Seq::empty())
    } else {
        match spec_parse_ipv4(toks[0]) {
            Some(ip) => match parse_ip_list(toks.drop_first()) {
                Ok(rest) => Ok(seq![ip] + rest),
                Err(t) => Err(t),
            },
            None => Err(toks[0]),
        }
    }
}

/// Classifies one line by its whitespace tokens. A line is skipped when it
/// is blank or its first token starts with `#`; a directive keyword with too
/// few tokens is not a directive and passes through verbatim.
pub open spec fn classify_line(line: Seq<char>) -> LineAction {
    let toks = spec_tokens(line);
    if toks.len() == 0 {
        LineAction::Skip
    } else if toks[0].len() > 0 && toks[0][0] == '#' {
        LineAction::Skip
    } else if toks[0] == "start"@ && toks.len() > 1 {
        match spec_parse_ipv4(toks[1]) {
            Some(ip) => LineAction::SetStart(ip),
            None => LineAction::BadIp(toks[1]),
        }
    } else if toks[0] == "end"@ && toks.len() > 1 {
        match spec_parse_ipv4(toks[1]) {
            Some(ip) => LineAction::SetEnd(ip),
            None => LineAction::BadIp(toks[1]),
        }
    } else if toks[0] == "interface"@ && toks.len() > 1 {
        LineAction::SetInterface(toks[1])
    } else if toks[0] == "option"@ && toks.len() > 2 {
        if toks[1] == "subnet"@ {
            match spec_parse_ipv4(toks[2]) {
                Some(ip) => LineAction::SetSubnet(ip),
                None => LineAction::BadIp(toks[2]),
            }
        } else if toks[1] == "dns"@ {
            match parse_ip_list(toks.skip(2)) {
                Ok(ips) => LineAction::SetDns(ips),
                Err(t) => LineAction::BadIp(t),
            }
        } else if toks[1] == "router"@ {
            match spec_parse_ipv4(toks[2]) {
                Some(ip) => LineAction::SetRouter(ip),
                None => LineAction::BadIp(toks[2]),
            }
        } else {
            LineAction::Pass(line)
        }
    } else if toks[0] == "static_lease"@ && toks.len() > 2 {
        match spec_parse_ipv4(toks[2]) {
            Some(ip) => LineAction::AddLease(toks[1], ip),
            None => LineAction::BadIp(toks[2]),
        }
    } else {
        LineAction::Pass(line)
    }
}

pub open spec fn apply_line(c: UdhcpdConfigView, line: Seq<char>) -> Result<
    UdhcpdConfigView,
    Seq<char>,
> {
    match classify_line(line) {
        LineAction::Skip => Ok(c),
        LineAction::SetStart(ip) => Ok(UdhcpdConfigView { start: Some(ip), ..c }),
        LineAction::SetEnd(ip) => Ok(UdhcpdConfigView { end: Some(ip), ..c }),
        LineAction::SetInterface(s) => Ok(UdhcpdConfigView { interface: Some(s), ..c }),
        LineAction::SetSubnet(ip) => Ok(UdhcpdConfigView { subnet_mask: Some(ip), ..c }),
        LineAction::SetDns(ips) => Ok(UdhcpdConfigView { dns_servers: ips, ..c }),
        LineAction::SetRouter(ip) => Ok(UdhcpdConfigView { router: Some(ip), ..c }),
        LineAction::AddLease(mac, ip) => Ok(
            UdhcpdConfigView {
                static_leases: c.static_leases.push(StaticLeaseView { mac, ip }),
                ..c
            },
        ),
        LineAction::Pass(l) => Ok(
            UdhcpdConfigView { remaining_lines: c.remaining_lines.push(l), ..c },
        ),
        LineAction::BadIp(t) => Err(t),
    }
}

pub open spec fn parse_lines_from(c: UdhcpdConfigView, lines: Seq<Seq<char>>) -> Result<
    UdhcpdConfigView,
    Seq<char>,
>
    decreases lines.len(),
{
    if lines.len() == 0 {
        Ok(c)
    } else {
        match apply_line(c, lines[0]) {
            Ok(c2) => parse_lines_from(c2, lines.drop_first()),
            Err(t) => Err(t),
        }
    }
}

/// The meaning of a whole configuration file.
pub open spec fn spec_parse_config(text: Seq<char>) -> Result<UdhcpdConfigView, Seq<char>> {
    parse_lines_from(empty_config(), spec_lines(text))
}

// ---------------------------------------------------------------------------
// Parsing: executable
// ---------------------------------------------------------------------------

/// Parses a whole configuration file. Either the parse fully succeeds, or
/// it fails with the first malformed IPv4 token and no configuration is
/// produced at all.
pub fn parse_config(text: &str) -> (r: Result<UdhcpdConfig, UdhcpdError>)
    ensures
        match r {
            Ok(c) => spec_parse_config(text@) == Ok::<UdhcpdConfigView, Seq<char>>(c@),
            Err(e) => match spec_parse_config(text@) {
                Err(t) => e matches UdhcpdError::InvalidIp(tok) && tok@ == t,
                Ok(_) => false,
            },
        },
{
    let lines = split_lines(text);
    let ghost all = lines.deep_view();
    let mut config = UdhcpdConfig::default();
    let mut idx: usize = 0;
    proof {
        assert(all.skip(0int) =~= all);
    }
    while idx < lines.len()
        invariant
            idx <= lines.len(),
            all == spec_lines(text@),
            all == lines.deep_view(),
            lines@.len() == all.len(),
            spec_parse_config(text@) == parse_lines_from(config@, all.skip(idx as int)),
        decreases lines.len() - idx,
    {
        let ghost pre = config@;
        let ghost line_chars = all[idx as int];
        proof {
            assert(all.skip(idx as int)[0] == line_chars);
            assert(all.skip(idx as int).drop_first() =~= all.skip(idx as int + 1));
            assert(lines.deep_view()[idx as int] == lines@[idx as int]@);
        }
        let line = &lines[idx];
        let toks = tokens_of(line.as_str());
        let ghost tv = spec_tokens(line_chars);
        proof {
            assert(toks.deep_view() == tv);
            assert(toks@.len() == tv.len());
            lemma_tokens_nonempty(line_chars);
            assert(forall|k: int|
                0 <= k < toks@.len() ==> #[trigger] toks@[k]@ == toks.deep_view()[k]);
        }
        if toks.len() == 0 {
            proof {
                assert(classify_line(line_chars) is Skip);
            }
        } else if toks[0].as_str().get_char(0) == '#' {
            proof {
                assert(tv[0].len() > 0 && tv[0][0] == '#');
                assert(classify_line(line_chars) is Skip);
            }
        } else if str_eq(toks[0].as_str(), "start") && toks.len() > 1 {
            match parse_ipv4(toks[1].as_str()) {
                Some(ip) => {
                    config.start = Some(ip);
                    proof {
                        assert(classify_line(line_chars) == LineAction::SetStart(ip));
                        assert(apply_line(pre, line_chars) == Ok::<UdhcpdConfigView, Seq<char>>(
                            config@,
                        ));
                    }
                },
                None => {
                    proof {
                        assert(classify_line(line_chars) == LineAction::BadIp(tv[1]));
                    }
                    return Err(UdhcpdError::InvalidIp(toks[1].clone()));
                },
            }
        } else if str_eq(toks[0].as_str(), "end") && toks.len() > 1 {
            match parse_ipv4(toks[1].as_str()) {
                Some(ip) => {
                    config.end = Some(ip);
                    proof {
                        assert(classify_line(line_chars) == LineAction::SetEnd(ip));
                    }
                },
                None => {
                    proof {
                        assert(classify_line(line_chars) == LineAction::BadIp(tv[1]));
                    }
                    return Err(UdhcpdError::InvalidIp(toks[1].clone()));
                },
            }
        } else if str_eq(toks[0].as_str(), "interface") && toks.len() > 1 {
            config.interface = Some(toks[1].clone());
            proof {
                assert(classify_line(line_chars) == LineAction::SetInterface(tv[1]));
            }
        } else if str_eq(toks[0].as_str(), "option") && toks.len() > 2 {
            if str_eq(toks[1].as_str(), "subnet") {
                match parse_ipv4(toks[2].as_str()) {
                    Some(ip) => {
                        config.subnet_mask = Some(ip);
                        proof {
                            assert(classify_line(line_chars) == LineAction::SetSubnet(ip));
                        }
                    },
                    None => {
                        proof {
                            assert(classify_line(line_chars) == LineAction::BadIp(tv[2]));
                        }
                        return Err(UdhcpdError::InvalidIp(toks[2].clone()));
                    },
                }
            } else if str_eq(toks[1].as_str(), "dns") {
                let ghost rest = tv.skip(2);
                let mut ips: Vec<Ipv4Addr> = Vec::new();
                let mut j: usize = 2;
                proof {
                    assert(rest.skip(0int) =~= rest);
                }
                let mut bad: Option<String> = None;
                while j < toks.len() && bad.is_none()
                    invariant
                        2 <= j <= toks@.len() == tv.len(),
                        rest == tv.skip(2),
                        toks.deep_view() == tv,
                        forall|k: int|
                            0 <= k < toks@.len() ==> #[trigger] toks@[k]@ == toks.deep_view()[k],
                        match bad {
                            None => parse_ip_list(rest) == match parse_ip_list(
                                rest.skip(j - 2),
                            ) {
                                Ok(more) => Ok::<Seq<Ipv4Addr>, Seq<char>>(ips@ + more),
                                Err(t) => Err::<Seq<Ipv4Addr>, Seq<char>>(t),
                            },
                            Some(b) => parse_ip_list(rest) == Err::<Seq<Ipv4Addr>, Seq<char>>(
                                b@,
                            ),
                        },
                    decreases toks@.len() - j,
                {
                    let ghost sub = rest.skip(j - 2);
                    proof {
                        assert(sub[0] == rest[j - 2]);
                        assert(rest[j - 2] == tv[j as int]);
                        assert(sub.drop_first() =~= rest.skip(j - 2 + 1));
                    }
                    match parse_ipv4(toks[j].as_str()) {
                        Some(ip) => {
                            let ghost pre_ips = ips@;
                            ips.push(ip);
                            proof {
                                assert(ips@ =~= pre_ips.push(ip));
                                assert(forall|more: Seq<Ipv4Addr>|
                                    (pre_ips + (seq![ip] + more)) =~= (#[trigger] (pre_ips.push(
                                        ip,
                                    ) + more)));
                            }
                        },
                        None => {
                            bad = Some(toks[j].clone());
                        },
                    }
                    j = j + 1;
                }
                match bad {
                    None => {
                        proof {
                            assert(rest.skip(j - 2) =~= Seq::<Seq<char>>::empty());
                            assert(parse_ip_list(rest) == Ok::<Seq<Ipv4Addr>, Seq<char>>(
                                ips@ + Seq::<Ipv4Addr>::empty(),
                            ));
                            assert((ips@ + Seq::<Ipv4Addr>::empty()) =~= ips@);
                            assert(classify_line(line_chars) == LineAction::SetDns(ips@));
                        }
                        config.dns_servers = ips;
                    },
                    Some(b) => {
                        proof {
                            assert(classify_line(line_chars) == LineAction::BadIp(b@));
                        }
                        return Err(UdhcpdError::InvalidIp(b));
                    },
                }
            } else if str_eq(toks[1].as_str(), "router") {
                match parse_ipv4(toks[2].as_str()) {
                    Some(ip) => {
                        config.router = Some(ip);
                        proof {
                            assert(classify_line(line_chars) == LineAction::SetRouter(ip));
                        }
                    },
                    None => {
                        proof {
                            assert(classify_line(line_chars) == LineAction::BadIp(tv[2]));
                        }
                        return Err(UdhcpdError::InvalidIp(toks[2].clone()));
                    },
                }
            } else {
                let ghost pre_lines = config@.remaining_lines;
                config.remaining_lines.push(line.clone());
                proof {
                    assert(classify_line(line_chars) == LineAction::Pass(line_chars));
                    assert(config@.remaining_lines =~= pre_lines.push(line_chars));
                }
            }
        } else if str_eq(toks[0].as_str(), "static_lease") && toks.len() > 2 {
            match parse_ipv4(toks[2].as_str()) {
                Some(ip) => {
                    let ghost pre_leases = config@.static_leases;
                    config.static_leases.push(StaticLease { mac: toks[1].clone(), ip });
                    proof {
                        assert(classify_line(line_chars) == LineAction::AddLease(tv[1], ip));
                        assert(config@.static_leases =~= pre_leases.push(
                            StaticLeaseView { mac: tv[1], ip },
                        ));
                    }
                },
                None => {
                    proof {
                        assert(classify_line(line_chars) == LineAction::BadIp(tv[2]));
                    }
                    return Err(UdhcpdError::InvalidIp(toks[2].clone()));
                },
            }
        } else {
            let ghost pre_lines = config@.remaining_lines;
            config.remaining_lines.push(line.clone());
            proof {
                assert(classify_line(line_chars) == LineAction::Pass(line_chars));
                assert(config@.remaining_lines =~= pre_lines.push(line_chars));
            }
        }
        proof {
            assert(apply_line(pre, line_chars) == Ok::<UdhcpdConfigView, Seq<char>>(config@))
                by {
                assert(config@ =~= match apply_line(pre, line_chars) {
                    Ok(c2) => c2,
                    Err(_) => config@,
                });
            }
        }
        idx = idx + 1;
    }
    proof {
        assert(all.skip(idx as int) =~= Seq::<Seq<char>>::empty());
    }
    Ok(config)
}


// ---------------------------------------------------------------------------
// Rendering: specification
// ---------------------------------------------------------------------------

/// One rendered line for an optional IPv4 field, or nothing.
pub open spec fn opt_ip_lines(prefix: Seq<char>, v: Option<Ipv4Addr>) -> Seq<Seq<char>> {
    match v {
        Some(ip) => seq![prefix + seq![' '] + ipv4_chars(ip)],
        None => Seq::empty(),
    }
}

/// One rendered line for an optional text field, or nothing.
pub open spec fn opt_str_lines(prefix: Seq<char>, v: Option<Seq<char>>) -> Seq<Seq<char>> {
    match v {
        Some(s) => seq![prefix + seq![' '] + s],
        None => Seq::empty(),
    }
}

/// The DNS servers joined by single spaces.
pub open spec fn dns_join(ips: Seq<Ipv4Addr>) -> Seq<char>
    decreases ips.len(),
{
    if ips.len() == 0 {
        Seq::empty()
    } else if ips.len() == 1 {
        ipv4_chars(ips[0])
    } else {
        ipv4_chars(ips[0]) + seq![' '] + dns_join(ips.drop_first())
    }
}

pub open spec fn dns_lines(ips: Seq<Ipv4Addr>) -> Seq<Seq<char>> {
    if ips.len() == 0 {
        Seq::empty()
    } else {
        seq!["option"@ + seq![' '] + "dns"@ + seq![' '] + dns_join(ips)]
    }
}

pub open spec fn lease_line(l: StaticLeaseView) -> Seq<char> {
    "static_lease"@ + seq![' '] + l.mac + seq![' '] + ipv4_chars(l.ip)
}

pub open spec fn lease_lines(ls: Seq<StaticLeaseView>) -> Seq<Seq<char>> {
    ls.map_values(|l: StaticLeaseView| lease_line(l))
}

/// The rendered file, line by line: recognized fields in canonical order,
/// then every passthrough line verbatim.
pub open spec fn render_lines(c: UdhcpdConfigView) -> Seq<Seq<char>> {
    opt_str_lines("interface"@, c.interface) + opt_ip_lines("start"@, c.start) + opt_ip_lines(
        "end"@,
        c.end,
    ) + opt_ip_lines("option"@ + seq![' '] + "subnet"@, c.subnet_mask) + opt_ip_lines(
        "option"@ + seq![' '] + "router"@,
        c.router,
    ) + dns_lines(c.dns_servers) + lease_lines(c.static_leases) + c.remaining_lines
}

/// Every line followed by a newline.
pub open spec fn join_lines(ls: Seq<Seq<char>>) -> Seq<char>
    decreases ls.len(),
{
    if ls.len() == 0 {
        Seq::empty()
    } else {
        ls[0] + seq!['\n'] + join_lines(ls.drop_first())
    }
}

pub open spec fn spec_render_config(c: UdhcpdConfigView) -> Seq<char> {
    join_lines(render_lines(c))
}

pub proof fn lemma_join_single(l: Seq<char>)
    ensures
        join_lines(seq![l]) == l + seq!['\n'],
{
    assert(seq![l].drop_first() =~= Seq::<Seq<char>>::empty());
    assert(join_lines(Seq::<Seq<char>>::empty()) == Seq::<char>::empty());
    assert(join_lines(seq![l]) =~= l + seq!['\n']);
}

pub proof fn lemma_join_concat(a: Seq<Seq<char>>, b: Seq<Seq<char>>)
    ensures
        join_lines(a + b) == join_lines(a) + join_lines(b),
    decreases a.len(),
{
    if a.len() == 0 {
        assert(a + b =~= b);
        assert(join_lines(a) == Seq::<char>::empty());
        assert((join_lines(a) + join_lines(b)) =~= join_lines(b));
    } else {
        lemma_join_concat(a.drop_first(), b);
        assert((a + b).drop_first() =~= a.drop_first() + b);
        assert((a + b)[0] == a[0]);
        assert((a + b).len() > 0);
        assert(join_lines(a + b) == (a + b)[0] + seq!['\n'] + join_lines((a + b).drop_first()));
        assert(join_lines(a + b) =~= join_lines(a) + join_lines(b));
    }
}

proof fn lemma_dns_join_push(ips: Seq<Ipv4Addr>, x: Ipv4Addr)
    requires
        ips.len() >= 1,
    ensures
        dns_join(ips.push(x)) == dns_join(ips) + seq![' '] + ipv4_chars(x),
    decreases ips.len(),
{
    let w = ips.push(x);
    assert(w[0] == ips[0]);
    if ips.len() == 1 {
        assert(w.drop_first() =~= seq![x]);
        assert(dns_join(seq![x]) == ipv4_chars(x));
        assert(dns_join(w) =~= dns_join(ips) + seq![' '] + ipv4_chars(x));
    } else {
        lemma_dns_join_push(ips.drop_first(), x);
        assert(w.drop_first() =~= ips.drop_first().push(x));
        assert(dns_join(w) == ipv4_chars(w[0]) + seq![' '] + dns_join(ips.drop_first().push(x)));
        assert(dns_join(w) =~= dns_join(ips) + seq![' '] + ipv4_chars(x));
    }
}

// ---------------------------------------------------------------------------
// Rendering: executable
// ---------------------------------------------------------------------------

/// Appends `prefix`, a space, the address and a newline.
fn append_ip_line(s: &mut String, prefix: &str, ip: &Ipv4Addr)
    ensures
        final(s)@ == old(s)@ + join_lines(seq![prefix@ + seq![' '] + ipv4_chars(*ip)]),
{
    s.append(prefix);
    s.append(" ");
    let t = format_ipv4(ip);
    s.append(t.as_str());
    s.append("\n");
    proof {
        reveal_strlit(" ");
        reveal_strlit("\n");
        assert(" "@ =~= seq![' ']);
        assert("\n"@ =~= seq!['\n']);
        lemma_join_single(prefix@ + seq![' '] + ipv4_chars(*ip));
        assert(s@ =~= old(s)@ + join_lines(seq![prefix@ + seq![' '] + ipv4_chars(*ip)]));
    }
}

/// Appends the `option dns` line joining all servers with single spaces.
fn append_dns_line(s: &mut String, ips: &Vec<Ipv4Addr>)
    requires
        ips@.len() > 0,
    ensures
        final(s)@ == old(s)@ + join_lines(dns_lines(ips@)),
{
    s.append("option dns ");
    let first = format_ipv4(&ips[0]);
    s.append(first.as_str());
    proof {
        reveal_strlit("option dns ");
        reveal_strlit("option");
        reveal_strlit("dns");
        assert("option dns "@ =~= "option"@ + seq![' '] + "dns"@ + seq![' ']);
        assert(ips@.take(1int) =~= seq![ips@[0int]]);
        assert(dns_join(ips@.take(1int)) == ipv4_chars(ips@[0int]));
        assert(s@ =~= old(s)@ + ("option"@ + seq![' '] + "dns"@ + seq![' ']) + dns_join(
            ips@.take(1int),
        ));
    }
    let mut i: usize = 1;
    while i < ips.len()
        invariant
            1 <= i <= ips@.len(),
            s@ == old(s)@ + ("option"@ + seq![' '] + "dns"@ + seq![' ']) + dns_join(
                ips@.take(i as int),
            ),
        decreases ips@.len() - i,
    {
        s.append(" ");
        let t = format_ipv4(&ips[i]);
        s.append(t.as_str());
        proof {
            reveal_strlit(" ");
            assert(" "@ =~= seq![' ']);
            lemma_dns_join_push(ips@.take(i as int), ips@[i as int]);
            assert(ips@.take(i as int + 1) =~= ips@.take(i as int).push(ips@[i as int]));
            assert(s@ =~= old(s)@ + ("option"@ + seq![' '] + "dns"@ + seq![' ']) + dns_join(
                ips@.take(i as int + 1),
            ));
        }
        i = i + 1;
    }
    s.append("\n");
    proof {
        reveal_strlit("\n");
        assert("\n"@ =~= seq!['\n']);
        assert(ips@.take(ips@.len() as int) =~= ips@);
        lemma_join_single("option"@ + seq![' '] + "dns"@ + seq![' '] + dns_join(ips@));
        assert(s@ =~= old(s)@ + join_lines(dns_lines(ips@)));
    }
}

/// Appends one `static_lease` line per lease, in order.
fn append_lease_lines(s: &mut String, ls: &Vec<StaticLease>)
    ensures
        final(s)@ == old(s)@ + join_lines(lease_lines(ls@.map_values(|l: StaticLease| l@))),
{
    let ghost lv = ls@.map_values(|l: StaticLease| l@);
    let ghost lls = lease_lines(lv);
    let mut i: usize = 0;
    proof {
        assert(lls.take(0int) =~= Seq::<Seq<char>>::empty());
        assert(join_lines(lls.take(0int)) == Seq::<char>::empty());
        assert(s@ =~= s@ + join_lines(lls.take(0int)));
    }
    while i < ls.len()
        invariant
            i <= ls@.len(),
            lv == ls@.map_values(|l: StaticLease| l@),
            lls == lease_lines(lv),
            lv.len() == ls@.len(),
            s@ == old(s)@ + join_lines(lls.take(i as int)),
        decreases ls@.len() - i,
    {
        let lease = &ls[i];
        s.append("static_lease ");
        s.append(lease.mac.as_str());
        s.append(" ");
        let t = format_ipv4(&lease.ip);
        s.append(t.as_str());
        s.append("\n");
        proof {
            reveal_strlit("static_lease ");
            reveal_strlit("static_lease");
            reveal_strlit(" ");
            reveal_strlit("\n");
            assert("static_lease "@ =~= "static_lease"@ + seq![' ']);
            assert(" "@ =~= seq![' ']);
            assert("\n"@ =~= seq!['\n']);
            let one = lv[i as int];
            assert(one == ls@[i as int]@);
            assert(lls[i as int] == lease_line(one));
            assert(lls.take(i as int + 1) =~= lls.take(i as int) + seq![lease_line(one)]);
            lemma_join_concat(lls.take(i as int), seq![lease_line(one)]);
            lemma_join_single(lease_line(one));
            assert(s@ =~= old(s)@ + join_lines(lls.take(i as int + 1)));
        }
        i = i + 1;
    }
    proof {
        assert(lls.take(ls@.len() as int) =~= lls);
    }
}

/// Appends every passthrough line verbatim, each followed by a newline.
fn append_passthrough_lines(s: &mut String, ls: &Vec<String>)
    ensures
        final(s)@ == old(s)@ + join_lines(ls.deep_view()),
{
    let ghost lv = ls.deep_view();
    let mut i: usize = 0;
    proof {
        assert(lv.take(0int) =~= Seq::<Seq<char>>::empty());
        assert(join_lines(lv.take(0int)) == Seq::<char>::empty());
        assert(s@ =~= s@ + join_lines(lv.take(0int)));
    }
    while i < ls.len()
        invariant
            i <= ls@.len(),
            lv == ls.deep_view(),
            lv.len() == ls@.len(),
            s@ == old(s)@ + join_lines(lv.take(i as int)),
        decreases ls@.len() - i,
    {
        s.append(ls[i].as_str());
        s.append("\n");
        proof {
            reveal_strlit("\n");
            assert("\n"@ =~= seq!['\n']);
            let one = lv[i as int];
            assert(one == ls@[i as int]@);
            assert(lv.take(i as int + 1) =~= lv.take(i as int) + seq![one]);
            lemma_join_concat(lv.take(i as int), seq![one]);
            lemma_join_single(one);
            assert(s@ =~= old(s)@ + join_lines(lv.take(i as int + 1)));
        }
        i = i + 1;
    }
    proof {
        assert(lv.take(ls@.len() as int) =~= lv);
    }
}

/// Renders a configuration back to file text: recognized fields in canonical
/// order (interface, start, end, subnet, router, dns, leases), then every
/// passthrough line verbatim, one line each.
pub fn render_config(c: &UdhcpdConfig) -> (s: String)
    ensures
        s@ == spec_render_config(c@),
{
    let ghost cv = c@;
    let ghost l_itf = opt_str_lines("interface"@, cv.interface);
    let ghost l_start = opt_ip_lines("start"@, cv.start);
    let ghost l_end = opt_ip_lines("end"@, cv.end);
    let ghost l_subnet = opt_ip_lines("option"@ + seq![' '] + "subnet"@, cv.subnet_mask);
    let ghost l_router = opt_ip_lines("option"@ + seq![' '] + "router"@, cv.router);
    let ghost l_dns = dns_lines(cv.dns_servers);
    let ghost l_leases = lease_lines(cv.static_leases);

    let mut s = String::new();
    if let Some(itf) = &c.interface {
        s.append("interface ");
        s.append(itf.as_str());
        s.append("\n");
        proof {
            reveal_strlit("interface ");
            reveal_strlit("interface");
            reveal_strlit("\n");
            assert("interface "@ =~= "interface"@ + seq![' ']);
            assert("\n"@ =~= seq!['\n']);
            lemma_join_single(("interface"@ + seq![' ']) + itf@);
            assert(s@ =~= join_lines(l_itf));
        }
    } else {
        proof {
            assert(s@ =~= join_lines(l_itf));
        }
    }
    if let Some(ip) = &c.start {
        append_ip_line(&mut s, "start", ip);
    }
    proof {
        lemma_join_concat(l_itf, l_start);
        assert(s@ =~= join_lines(l_itf + l_start));
    }
    if let Some(ip) = &c.end {
        append_ip_line(&mut s, "end", ip);
    }
    proof {
        lemma_join_concat(l_itf + l_start, l_end);
        assert(s@ =~= join_lines(l_itf + l_start + l_end));
    }
    if let Some(ip) = &c.subnet_mask {
        append_ip_line(&mut s, "option subnet", ip);
        proof {
            reveal_strlit("option subnet");
            reveal_strlit("option");
            reveal_strlit("subnet");
            assert("option subnet"@ =~= "option"@ + seq![' '] + "subnet"@);
        }
    }
    proof {
        lemma_join_concat(l_itf + l_start + l_end, l_subnet);
        assert(s@ =~= join_lines(l_itf + l_start + l_end + l_subnet));
    }
    if let Some(ip) = &c.router {
        append_ip_line(&mut s, "option router", ip);
        proof {
            reveal_strlit("option router");
            reveal_strlit("option");
            reveal_strlit("router");
            assert("option router"@ =~= "option"@ + seq![' '] + "router"@);
        }
    }
    let ghost head5 = l_itf + l_start + l_end + l_subnet + l_router;
    proof {
        lemma_join_concat(l_itf + l_start + l_end + l_subnet, l_router);
        assert(s@ =~= join_lines(head5));
    }
    if c.dns_servers.len() > 0 {
        append_dns_line(&mut s, &c.dns_servers);
    } else {
        proof {
            assert(l_dns =~= Seq::<Seq<char>>::empty());
            assert(join_lines(l_dns) == Seq::<char>::empty());
            assert(s@ =~= join_lines(head5) + join_lines(l_dns));
        }
    }
    let ghost head6 = head5 + l_dns;
    proof {
        lemma_join_concat(head5, l_dns);
        assert(s@ =~= join_lines(head6));
    }
    append_lease_lines(&mut s, &c.static_leases);
    let ghost head7 = head6 + l_leases;
    proof {
        lemma_join_concat(head6, l_leases);
        assert(s@ =~= join_lines(head7));
    }
    append_passthrough_lines(&mut s, &c.remaining_lines);
    proof {
        lemma_join_concat(head7, cv.remaining_lines);
        assert(head7 + cv.remaining_lines =~= render_lines(cv));
        assert(s@ =~= spec_render_config(cv));
    }
    s
}


// ---------------------------------------------------------------------------
// Round trip
// ---------------------------------------------------------------------------

/// A value that must survive as one whole token on its line: nonempty and
/// free of whitespace. Interface names and MAC addresses are written and
/// read back as such tokens.
pub open spec fn token_ok(s: Seq<char>) -> bool {
    s.len() >= 1 && (forall|i: int| 0 <= i < s.len() ==> !is_space(#[trigger] s[i]))
}

/// A passthrough line that reads back as itself: it holds no newline, and
/// the parser classifies it as a passthrough line again (so it is not blank,
/// not a comment, and not a recognized directive).
pub open spec fn passthrough_ok(l: Seq<char>) -> bool {
    &&& forall|i: int| 0 <= i < l.len() ==> #[trigger] l[i] != '\n'
    &&& classify_line(l) == LineAction::Pass(l)
}

/// The configurations whose file text reads back exactly: the interface name
/// and every MAC are single tokens, and every passthrough line is inert.
/// (A passthrough line that looks like a directive, a comment or a blank
/// line would be re-interpreted on the next read and cannot round-trip.)
pub open spec fn config_clean(c: UdhcpdConfigView) -> bool {
    &&& match c.interface {
        Some(s) => token_ok(s),
        None => true,
    }
    &&& forall|i: int|
        0 <= i < c.static_leases.len() ==> token_ok(#[trigger] c.static_leases[i].mac)
    &&& forall|i: int|
        0 <= i < c.remaining_lines.len() ==> passthrough_ok(#[trigger] c.remaining_lines[i])
}

pub open spec fn line_no_nl(l: Seq<char>) -> bool {
    forall|i: int| 0 <= i < l.len() ==> #[trigger] l[i] != '\n'
}

pub open spec fn lines_no_nl(ls: Seq<Seq<char>>) -> bool {
    forall|k: int| 0 <= k < ls.len() ==> line_no_nl(#[trigger] ls[k])
}

/// Splitting rendered text recovers exactly the rendered lines, as long as
/// no line holds a newline of its own.
pub proof fn lemma_lines_join(ls: Seq<Seq<char>>)
    requires
        lines_no_nl(ls),
    ensures
        spec_lines(join_lines(ls)) == ls,
    decreases ls.len(),
{
    if ls.len() == 0 {
        assert(spec_lines(join_lines(ls)) =~= ls);
    } else {
        assert(line_no_nl(ls[0]));
        assert(lines_no_nl(ls.drop_first()));
        lemma_lines_join(ls.drop_first());
        lemma_lines_cons(ls[0], join_lines(ls.drop_first()));
        assert(join_lines(ls) =~= ls[0] + seq!['\n'] + join_lines(ls.drop_first()));
        assert(spec_lines(join_lines(ls)) == seq![ls[0]] + ls.drop_first());
        assert(seq![ls[0]] + ls.drop_first() =~= ls);
    }
}

/// Concrete facts about the directive keywords: their lengths, their first
/// characters, and that they hold no whitespace.
proof fn keyword_facts()
    ensures
        "start"@.len() == 5 && "start"@[0] == 's',
        "end"@.len() == 3 && "end"@[0] == 'e',
        "interface"@.len() == 9 && "interface"@[0] == 'i',
        "option"@.len() == 6 && "option"@[0] == 'o',
        "subnet"@.len() == 6 && "subnet"@[0] == 's',
        "dns"@.len() == 3 && "dns"@[0] == 'd',
        "router"@.len() == 6 && "router"@[0] == 'r',
        "static_lease"@.len() == 12 && "static_lease"@[0] == 's',
        forall|i: int| 0 <= i < "start"@.len() ==> !is_space(#[trigger] "start"@[i]),
        forall|i: int| 0 <= i < "end"@.len() ==> !is_space(#[trigger] "end"@[i]),
        forall|i: int| 0 <= i < "interface"@.len() ==> !is_space(#[trigger] "interface"@[i]),
        forall|i: int| 0 <= i < "option"@.len() ==> !is_space(#[trigger] "option"@[i]),
        forall|i: int| 0 <= i < "subnet"@.len() ==> !is_space(#[trigger] "subnet"@[i]),
        forall|i: int| 0 <= i < "dns"@.len() ==> !is_space(#[trigger] "dns"@[i]),
        forall|i: int| 0 <= i < "router"@.len() ==> !is_space(#[trigger] "router"@[i]),
        forall|i: int| 0 <= i < "static_lease"@.len() ==> !is_space(#[trigger] "static_lease"@[i]),
{
    reveal_strlit("start");
    reveal_strlit("end");
    reveal_strlit("interface");
    reveal_strlit("option");
    reveal_strlit("subnet");
    reveal_strlit("dns");
    reveal_strlit("router");
    reveal_strlit("static_lease");
}

/// A single-token value preceded by a keyword and a space tokenizes to the
/// two tokens.
proof fn lemma_kv_tokens(kw: Seq<char>, v: Seq<char>)
    requires
        kw.len() >= 1,
        forall|i: int| 0 <= i < kw.len() ==> !is_space(#[trigger] kw[i]),
        token_ok(v),
    ensures
        spec_tokens(kw + seq![' '] + v) == seq![kw, v],
{
    lemma_tokens_word_space(kw, v);
    lemma_tokens_single(v);
    assert(seq![kw] + seq![v] =~= seq![kw, v]);
}

proof fn lemma_classify_interface(itf: Seq<char>)
    requires
        token_ok(itf),
    ensures
        classify_line("interface"@ + seq![' '] + itf) == LineAction::SetInterface(itf),
        line_no_nl("interface"@ + seq![' '] + itf),
{
    keyword_facts();
    lemma_kv_tokens("interface"@, itf);
    let line = "interface"@ + seq![' '] + itf;
    let toks = spec_tokens(line);
    assert(toks[0] == "interface"@ && toks[1] == itf && toks.len() == 2);
    assert(toks[0] != "start"@ && toks[0] != "end"@ && toks[0][0] != '#');
    assert forall|i: int| 0 <= i < line.len() implies #[trigger] line[i] != '\n' by {
        if i < "interface"@.len() {
            assert(line[i] == "interface"@[i]);
        } else if i == "interface"@.len() {
            assert(line[i] == ' ');
        } else {
            assert(line[i] == itf[i - "interface"@.len() - 1]);
        }
    }
}

/// The text of an address is a single whitespace-free token.
proof fn lemma_ipv4_token(ip: Ipv4Addr)
    ensures
        token_ok(ipv4_chars(ip)),
        forall|i: int| 0 <= i < ipv4_chars(ip).len() ==> #[trigger] ipv4_chars(ip)[i] != '\n',
{
    lemma_ipv4_chars_wf(ip);
}

proof fn lemma_classify_simple_ip(kw: Seq<char>, ip: Ipv4Addr)
    requires
        kw == "start"@ || kw == "end"@,
    ensures
        classify_line(kw + seq![' '] + ipv4_chars(ip)) == (if kw == "start"@ {
            LineAction::SetStart(ip)
        } else {
            LineAction::SetEnd(ip)
        }),
        line_no_nl(kw + seq![' '] + ipv4_chars(ip)),
{
    keyword_facts();
    lemma_ipv4_token(ip);
    lemma_ipv4_roundtrip(ip);
    lemma_kv_tokens(kw, ipv4_chars(ip));
    let line = kw + seq![' '] + ipv4_chars(ip);
    let toks = spec_tokens(line);
    assert(toks[0] == kw && toks[1] == ipv4_chars(ip) && toks.len() == 2);
    assert(toks[0][0] != '#');
    assert forall|i: int| 0 <= i < line.len() implies #[trigger] line[i] != '\n' by {
        if i < kw.len() {
            assert(line[i] == kw[i]);
        } else if i == kw.len() {
            assert(line[i] == ' ');
        } else {
            assert(line[i] == ipv4_chars(ip)[i - kw.len() - 1]);
        }
    }
}

/// Tokenizing `option <word> <value>` where the value is one token.
proof fn lemma_option_tokens(word: Seq<char>, v: Seq<char>)
    requires
        word.len() >= 1,
        forall|i: int| 0 <= i < word.len() ==> !is_space(#[trigger] word[i]),
        token_ok(v),
    ensures
        spec_tokens(("option"@ + seq![' '] + word) + seq![' '] + v) == seq!["option"@, word, v],
{
    keyword_facts();
    let tail = word + seq![' '] + v;
    assert((("option"@ + seq![' '] + word) + seq![' '] + v) =~= ("option"@ + seq![' '] + tail));
    lemma_tokens_word_space("option"@, tail);
    lemma_kv_tokens(word, v);
    assert(seq!["option"@] + seq![word, v] =~= seq!["option"@, word, v]);
}

proof fn lemma_classify_option_ip(word: Seq<char>, ip: Ipv4Addr)
    requires
        word == "subnet"@ || word == "router"@,
    ensures
        classify_line(("option"@ + seq![' '] + word) + seq![' '] + ipv4_chars(ip)) == (
        if word == "subnet"@ {
            LineAction::SetSubnet(ip)
        } else {
            LineAction::SetRouter(ip)
        }),
        line_no_nl(("option"@ + seq![' '] + word) + seq![' '] + ipv4_chars(ip)),
{
    keyword_facts();
    lemma_ipv4_token(ip);
    lemma_ipv4_roundtrip(ip);
    lemma_option_tokens(word, ipv4_chars(ip));
    let line = ("option"@ + seq![' '] + word) + seq![' '] + ipv4_chars(ip);
    let toks = spec_tokens(line);
    assert(toks.len() == 3 && toks[0] == "option"@ && toks[1] == word && toks[2] == ipv4_chars(
        ip,
    ));
    assert(toks[0][0] != '#');
    assert(toks[1] != "dns"@);
    assert(word == "router"@ ==> toks[1] != "subnet"@);
    assert forall|i: int| 0 <= i < line.len() implies #[trigger] line[i] != '\n' by {
        let k = "option"@.len() + 1 + word.len();
        if i < "option"@.len() {
            assert(line[i] == "option"@[i]);
        } else if i == "option"@.len() {
            assert(line[i] == ' ');
        } else if i < k {
            assert(line[i] == word[i - "option"@.len() - 1]);
        } else if i == k {
            assert(line[i] == ' ');
        } else {
            assert(line[i] == ipv4_chars(ip)[i - k - 1]);
        }
    }
}

/// The joined DNS list tokenizes back into one token per address.
proof fn lemma_dns_join_tokens(ips: Seq<Ipv4Addr>)
    requires
        ips.len() >= 1,
    ensures
        spec_tokens(dns_join(ips)) == ips.map_values(|ip: Ipv4Addr| ipv4_chars(ip)),
        forall|i: int| 0 <= i < dns_join(ips).len() ==> #[trigger] dns_join(ips)[i] != '\n',
    decreases ips.len(),
{
    lemma_ipv4_token(ips[0]);
    if ips.len() == 1 {
        lemma_tokens_single(ipv4_chars(ips[0]));
        assert(seq![ipv4_chars(ips[0])] =~= ips.map_values(|ip: Ipv4Addr| ipv4_chars(ip)));
    } else {
        lemma_dns_join_tokens(ips.drop_first());
        lemma_tokens_word_space(ipv4_chars(ips[0]), dns_join(ips.drop_first()));
        assert(seq![ipv4_chars(ips[0])] + ips.drop_first().map_values(
            |ip: Ipv4Addr| ipv4_chars(ip),
        ) =~= ips.map_values(|ip: Ipv4Addr| ipv4_chars(ip)));
        let w = dns_join(ips);
        assert(w =~= ipv4_chars(ips[0]) + seq![' '] + dns_join(ips.drop_first()));
        assert forall|i: int| 0 <= i < w.len() implies #[trigger] w[i] != '\n' by {
            let k = ipv4_chars(ips[0]).len();
            if i < k {
                assert(w[i] == ipv4_chars(ips[0])[i]);
            } else if i == k {
                assert(w[i] == ' ');
            } else {
                assert(w[i] == dns_join(ips.drop_first())[i - k - 1]);
            }
        }
    }
}

/// The canonical text of every address in the list parses back.
proof fn lemma_parse_ip_list_roundtrip(ips: Seq<Ipv4Addr>)
    ensures
        parse_ip_list(ips.map_values(|ip: Ipv4Addr| ipv4_chars(ip))) == Ok::<
            Seq<Ipv4Addr>,
            Seq<char>,
        >(ips),
    decreases ips.len(),
{
    let m = ips.map_values(|ip: Ipv4Addr| ipv4_chars(ip));
    if ips.len() == 0 {
        assert(m.len() == 0);
        assert(ips =~= Seq::<Ipv4Addr>::empty());
    } else {
        lemma_ipv4_roundtrip(ips[0]);
        lemma_parse_ip_list_roundtrip(ips.drop_first());
        assert(m[0] == ipv4_chars(ips[0]));
        assert(m.drop_first() =~= ips.drop_first().map_values(|ip: Ipv4Addr| ipv4_chars(ip)));
        assert(seq![ips[0]] + ips.drop_first() =~= ips);
    }
}

proof fn lemma_classify_dns(ips: Seq<Ipv4Addr>)
    requires
        ips.len() >= 1,
    ensures
        classify_line("option"@ + seq![' '] + "dns"@ + seq![' '] + dns_join(ips))
            == LineAction::SetDns(ips),
        line_no_nl("option"@ + seq![' '] + "dns"@ + seq![' '] + dns_join(ips)),
{
    keyword_facts();
    lemma_dns_join_tokens(ips);
    lemma_parse_ip_list_roundtrip(ips);
    let m = ips.map_values(|ip: Ipv4Addr| ipv4_chars(ip));
    let line = "option"@ + seq![' '] + "dns"@ + seq![' '] + dns_join(ips);
    let tail = "dns"@ + seq![' '] + dns_join(ips);
    assert(line =~= "option"@ + seq![' '] + tail);
    lemma_tokens_word_space("option"@, tail);
    lemma_tokens_word_space("dns"@, dns_join(ips));
    let toks = spec_tokens(line);
    assert(toks =~= seq!["option"@, "dns"@] + m);
    assert(toks.len() == 2 + ips.len());
    assert(toks[0] == "option"@ && toks[1] == "dns"@);
    assert(toks[0][0] != '#');
    assert(toks[1] != "subnet"@);
    assert(toks.skip(2) =~= m);
    assert forall|i: int| 0 <= i < line.len() implies #[trigger] line[i] != '\n' by {
        let k = "option"@.len() + 1 + "dns"@.len();
        if i < "option"@.len() {
            assert(line[i] == "option"@[i]);
        } else if i == "option"@.len() {
            assert(line[i] == ' ');
        } else if i < k {
            assert(line[i] == "dns"@[i - "option"@.len() - 1]);
        } else if i == k {
            assert(line[i] == ' ');
        } else {
            assert(line[i] == dns_join(ips)[i - k - 1]);
        }
    }
}

proof fn lemma_classify_lease(l: StaticLeaseView)
    requires
        token_ok(l.mac),
    ensures
        classify_line(lease_line(l)) == LineAction::AddLease(l.mac, l.ip),
        line_no_nl(lease_line(l)),
{
    keyword_facts();
    lemma_ipv4_token(l.ip);
    lemma_ipv4_roundtrip(l.ip);
    let line = lease_line(l);
    let tail = l.mac + seq![' '] + ipv4_chars(l.ip);
    assert(line =~= "static_lease"@ + seq![' '] + tail);
    lemma_tokens_word_space("static_lease"@, tail);
    lemma_kv_tokens(l.mac, ipv4_chars(l.ip));
    let toks = spec_tokens(line);
    assert(toks =~= seq!["static_lease"@, l.mac, ipv4_chars(l.ip)]);
    assert(toks[0][0] != '#');
    assert forall|i: int| 0 <= i < line.len() implies #[trigger] line[i] != '\n' by {
        let k = "static_lease"@.len() + 1 + l.mac.len();
        if i < "static_lease"@.len() {
            assert(line[i] == "static_lease"@[i]);
        } else if i == "static_lease"@.len() {
            assert(line[i] == ' ');
        } else if i < k {
            assert(line[i] == l.mac[i - "static_lease"@.len() - 1]);
        } else if i == k {
            assert(line[i] == ' ');
        } else {
            assert(line[i] == ipv4_chars(l.ip)[i - k - 1]);
        }
    }
}

/// Parsing distributes over concatenation of line lists.
proof fn lemma_parse_lines_concat(c: UdhcpdConfigView, a: Seq<Seq<char>>, b: Seq<Seq<char>>)
    ensures
        parse_lines_from(c, a + b) == match parse_lines_from(c, a) {
            Ok(c2) => parse_lines_from(c2, b),
            Err(t) => Err::<UdhcpdConfigView, Seq<char>>(t),
        },
    decreases a.len(),
{
    if a.len() == 0 {
        assert(a + b =~= b);
    } else {
        assert((a + b)[0] == a[0]);
        assert((a + b).len() > 0);
        assert((a + b).drop_first() =~= a.drop_first() + b);
        match apply_line(c, a[0]) {
            Ok(c2) => {
                lemma_parse_lines_concat(c2, a.drop_first(), b);
            },
            Err(_) => {},
        }
    }
}

/// Parsing a single line applies that line's action.
proof fn lemma_parse_one(c: UdhcpdConfigView, line: Seq<char>)
    requires
        apply_line(c, line) is Ok,
    ensures
        parse_lines_from(c, seq![line]) == apply_line(c, line),
{
    assert(seq![line].drop_first() =~= Seq::<Seq<char>>::empty());
    assert(seq![line][0] == line);
    match apply_line(c, line) {
        Ok(c2) => {
            assert(parse_lines_from(c2, Seq::<Seq<char>>::empty()) == Ok::<
                UdhcpdConfigView,
                Seq<char>,
            >(c2));
            assert(parse_lines_from(c, seq![line]) == Ok::<UdhcpdConfigView, Seq<char>>(c2));
        },
        Err(_) => {},
    }
}

/// Parsing the rendered lease lines appends exactly those leases.
proof fn lemma_parse_lease_lines(c: UdhcpdConfigView, ls: Seq<StaticLeaseView>)
    requires
        forall|i: int| 0 <= i < ls.len() ==> token_ok(#[trigger] ls[i].mac),
    ensures
        parse_lines_from(c, lease_lines(ls)) == Ok::<UdhcpdConfigView, Seq<char>>(
            UdhcpdConfigView { static_leases: c.static_leases + ls, ..c },
        ),
        lines_no_nl(lease_lines(ls)),
    decreases ls.len(),
{
    let m = lease_lines(ls);
    if ls.len() == 0 {
        assert(m.len() == 0);
        assert(UdhcpdConfigView { static_leases: c.static_leases + ls, ..c } =~= c);
    } else {
        lemma_classify_lease(ls[0]);
        assert(m[0] == lease_line(ls[0]));
        let c2 = UdhcpdConfigView {
            static_leases: c.static_leases.push(StaticLeaseView { mac: ls[0].mac, ip: ls[0].ip }),
            ..c
        };
        assert(apply_line(c, m[0]) == Ok::<UdhcpdConfigView, Seq<char>>(c2)) by {
            assert(StaticLeaseView { mac: ls[0].mac, ip: ls[0].ip } =~= ls[0]);
        }
        assert(forall|i: int|
            0 <= i < ls.drop_first().len() ==> token_ok(#[trigger] ls.drop_first()[i].mac));
        lemma_parse_lease_lines(c2, ls.drop_first());
        assert(m.drop_first() =~= lease_lines(ls.drop_first()));
        assert(c2.static_leases + ls.drop_first() =~= c.static_leases + ls) by {
            assert(StaticLeaseView { mac: ls[0].mac, ip: ls[0].ip } =~= ls[0]);
        }
        assert(UdhcpdConfigView { static_leases: c2.static_leases + ls.drop_first(), ..c2 } =~= (
        UdhcpdConfigView { static_leases: c.static_leases + ls, ..c }));
        assert forall|k: int| 0 <= k < m.len() implies line_no_nl(#[trigger] m[k]) by {
            if k == 0 {
            } else {
                assert(m[k] == lease_lines(ls.drop_first())[k - 1]);
            }
        }
    }
}

/// Parsing the rendered passthrough lines appends exactly those lines.
proof fn lemma_parse_pass_lines(c: UdhcpdConfigView, ls: Seq<Seq<char>>)
    requires
        forall|i: int| 0 <= i < ls.len() ==> passthrough_ok(#[trigger] ls[i]),
    ensures
        parse_lines_from(c, ls) == Ok::<UdhcpdConfigView, Seq<char>>(
            UdhcpdConfigView { remaining_lines: c.remaining_lines + ls, ..c },
        ),
        lines_no_nl(ls),
    decreases ls.len(),
{
    if ls.len() == 0 {
        assert(UdhcpdConfigView { remaining_lines: c.remaining_lines + ls, ..c } =~= c);
    } else {
        assert(passthrough_ok(ls[0]));
        let c2 = UdhcpdConfigView { remaining_lines: c.remaining_lines.push(ls[0]), ..c };
        assert(apply_line(c, ls[0]) == Ok::<UdhcpdConfigView, Seq<char>>(c2));
        assert(forall|i: int|
            0 <= i < ls.drop_first().len() ==> passthrough_ok(#[trigger] ls.drop_first()[i]));
        lemma_parse_pass_lines(c2, ls.drop_first());
        assert(seq![ls[0]] + ls.drop_first() =~= ls);
        assert(c2.remaining_lines + ls.drop_first() =~= c.remaining_lines + ls);
        assert(UdhcpdConfigView { remaining_lines: c2.remaining_lines + ls.drop_first(), ..c2 }
            =~= (UdhcpdConfigView { remaining_lines: c.remaining_lines + ls, ..c }));
        assert(parse_lines_from(c, ls) == parse_lines_from(c2, ls.drop_first()));
    }
}

/// Every rendered line is newline-free.
#[verifier::rlimit(60)]
proof fn lemma_render_lines_no_nl(c: UdhcpdConfigView)
    requires
        config_clean(c),
    ensures
        lines_no_nl(render_lines(c)),
{
    let l_itf = opt_str_lines("interface"@, c.interface);
    let l_start = opt_ip_lines("start"@, c.start);
    let l_end = opt_ip_lines("end"@, c.end);
    let l_subnet = opt_ip_lines("option"@ + seq![' '] + "subnet"@, c.subnet_mask);
    let l_router = opt_ip_lines("option"@ + seq![' '] + "router"@, c.router);
    let l_dns = dns_lines(c.dns_servers);
    let l_leases = lease_lines(c.static_leases);
    let all = render_lines(c);
    match c.interface {
        Some(itf) => lemma_classify_interface(itf),
        None => (),
    }
    match c.start {
        Some(ip) => lemma_classify_simple_ip("start"@, ip),
        None => (),
    }
    match c.end {
        Some(ip) => lemma_classify_simple_ip("end"@, ip),
        None => (),
    }
    match c.subnet_mask {
        Some(ip) => lemma_classify_option_ip("subnet"@, ip),
        None => (),
    }
    match c.router {
        Some(ip) => lemma_classify_option_ip("router"@, ip),
        None => (),
    }
    if c.dns_servers.len() > 0 {
        lemma_classify_dns(c.dns_servers);
    }
    assert forall|k: int| 0 <= k < l_leases.len() implies line_no_nl(#[trigger] l_leases[k]) by {
        lemma_classify_lease(c.static_leases[k]);
        assert(l_leases[k] == lease_line(c.static_leases[k]));
    }
    assert forall|k: int| 0 <= k < all.len() implies line_no_nl(#[trigger] all[k]) by {
        let n1 = l_itf.len();
        let n2 = n1 + l_start.len();
        let n3 = n2 + l_end.len();
        let n4 = n3 + l_subnet.len();
        let n5 = n4 + l_router.len();
        let n6 = n5 + l_dns.len();
        let n7 = n6 + l_leases.len();
        if k < n1 {
            assert(all[k] == l_itf[k]);
        } else if k < n2 {
            assert(all[k] == l_start[k - n1]);
        } else if k < n3 {
            assert(all[k] == l_end[k - n2]);
        } else if k < n4 {
            assert(all[k] == l_subnet[k - n3]);
        } else if k < n5 {
            assert(all[k] == l_router[k - n4]);
        } else if k < n6 {
            assert(all[k] == l_dns[k - n5]);
        } else if k < n7 {
            assert(all[k] == l_leases[k - n6]);
        } else {
            assert(all[k] == c.remaining_lines[k - n7]);
            assert(passthrough_ok(c.remaining_lines[k - n7]));
        }
    }
}

/// Parsing the rendered lines of a clean configuration, starting from the
/// empty configuration, rebuilds the configuration exactly.
#[verifier::rlimit(60)]
proof fn lemma_render_lines_parse(c: UdhcpdConfigView)
    requires
        config_clean(c),
    ensures
        parse_lines_from(empty_config(), render_lines(c)) == Ok::<UdhcpdConfigView, Seq<char>>(c),
{
    let l_itf = opt_str_lines("interface"@, c.interface);
    let l_start = opt_ip_lines("start"@, c.start);
    let l_end = opt_ip_lines("end"@, c.end);
    let l_subnet = opt_ip_lines("option"@ + seq![' '] + "subnet"@, c.subnet_mask);
    let l_router = opt_ip_lines("option"@ + seq![' '] + "router"@, c.router);
    let l_dns = dns_lines(c.dns_servers);
    let l_leases = lease_lines(c.static_leases);
    keyword_facts();

    let c0 = empty_config();
    let c1 = UdhcpdConfigView { interface: c.interface, ..c0 };
    assert(parse_lines_from(c0, l_itf) == Ok::<UdhcpdConfigView, Seq<char>>(c1)) by {
        match c.interface {
            Some(itf) => {
                lemma_classify_interface(itf);
                lemma_parse_one(c0, "interface"@ + seq![' '] + itf);
            },
            None => {
                assert(c1 =~= c0);
            },
        }
    }
    let c2 = UdhcpdConfigView { start: c.start, ..c1 };
    assert(parse_lines_from(c1, l_start) == Ok::<UdhcpdConfigView, Seq<char>>(c2)) by {
        match c.start {
            Some(ip) => {
                lemma_classify_simple_ip("start"@, ip);
                lemma_parse_one(c1, "start"@ + seq![' '] + ipv4_chars(ip));
            },
            None => {
                assert(c2 =~= c1);
            },
        }
    }
    let c3 = UdhcpdConfigView { end: c.end, ..c2 };
    assert(parse_lines_from(c2, l_end) == Ok::<UdhcpdConfigView, Seq<char>>(c3)) by {
        match c.end {
            Some(ip) => {
                lemma_classify_simple_ip("end"@, ip);
                lemma_parse_one(c2, "end"@ + seq![' '] + ipv4_chars(ip));
            },
            None => {
                assert(c3 =~= c2);
            },
        }
    }
    let c4 = UdhcpdConfigView { subnet_mask: c.subnet_mask, ..c3 };
    assert(parse_lines_from(c3, l_subnet) == Ok::<UdhcpdConfigView, Seq<char>>(c4)) by {
        match c.subnet_mask {
            Some(ip) => {
                lemma_classify_option_ip("subnet"@, ip);
                lemma_parse_one(c3, ("option"@ + seq![' '] + "subnet"@) + seq![' '] + ipv4_chars(
                    ip,
                ));
            },
            None => {
                assert(c4 =~= c3);
            },
        }
    }
    let c5 = UdhcpdConfigView { router: c.router, ..c4 };
    assert(parse_lines_from(c4, l_router) == Ok::<UdhcpdConfigView, Seq<char>>(c5)) by {
        match c.router {
            Some(ip) => {
                lemma_classify_option_ip("router"@, ip);
                lemma_parse_one(c4, ("option"@ + seq![' '] + "router"@) + seq![' '] + ipv4_chars(
                    ip,
                ));
            },
            None => {
                assert(c5 =~= c4);
            },
        }
    }
    let c6 = UdhcpdConfigView { dns_servers: c.dns_servers, ..c5 };
    assert(parse_lines_from(c5, l_dns) == Ok::<UdhcpdConfigView, Seq<char>>(c6)) by {
        if c.dns_servers.len() == 0 {
            assert(c5.dns_servers =~= c.dns_servers);
            assert(c6 =~= c5);
        } else {
            lemma_classify_dns(c.dns_servers);
            lemma_parse_one(c5, "option"@ + seq![' '] + "dns"@ + seq![' '] + dns_join(
                c.dns_servers,
            ));
        }
    }
    let c7 = UdhcpdConfigView { static_leases: c.static_leases, ..c6 };
    assert(parse_lines_from(c6, l_leases) == Ok::<UdhcpdConfigView, Seq<char>>(c7)) by {
        lemma_parse_lease_lines(c6, c.static_leases);
        assert(c6.static_leases + c.static_leases =~= c.static_leases);
        assert(UdhcpdConfigView { static_leases: c6.static_leases + c.static_leases, ..c6 } =~= c7);
    }
    let c8 = UdhcpdConfigView { remaining_lines: c.remaining_lines, ..c7 };
    assert(parse_lines_from(c7, c.remaining_lines) == Ok::<UdhcpdConfigView, Seq<char>>(c8)) by {
        lemma_parse_pass_lines(c7, c.remaining_lines);
        assert(c7.remaining_lines + c.remaining_lines =~= c.remaining_lines);
        assert(UdhcpdConfigView { remaining_lines: c7.remaining_lines + c.remaining_lines, ..c7 }
            =~= c8);
    }
    assert(c8 =~= c);

    // Chain the blocks from the left; the groupings match `render_lines`.
    let p1 = l_itf;
    let p2 = p1 + l_start;
    let p3 = p2 + l_end;
    let p4 = p3 + l_subnet;
    let p5 = p4 + l_router;
    let p6 = p5 + l_dns;
    let p7 = p6 + l_leases;
    let p8 = p7 + c.remaining_lines;
    lemma_parse_lines_concat(c0, p1, l_start);
    lemma_parse_lines_concat(c0, p2, l_end);
    lemma_parse_lines_concat(c0, p3, l_subnet);
    lemma_parse_lines_concat(c0, p4, l_router);
    lemma_parse_lines_concat(c0, p5, l_dns);
    lemma_parse_lines_concat(c0, p6, l_leases);
    lemma_parse_lines_concat(c0, p7, c.remaining_lines);
    assert(parse_lines_from(c0, p8) == Ok::<UdhcpdConfigView, Seq<char>>(c));
    assert(render_lines(c) == p8);
}

/// Round trip: a clean configuration written to text and parsed back yields
/// the same recognized field values, the same leases in order, and the same
/// passthrough lines in order.
pub proof fn lemma_config_roundtrip(c: UdhcpdConfigView)
    requires
        config_clean(c),
    ensures
        spec_parse_config(spec_render_config(c)) == Ok::<UdhcpdConfigView, Seq<char>>(c),
{
    lemma_render_lines_no_nl(c);
    lemma_lines_join(render_lines(c));
    lemma_render_lines_parse(c);
}

} // verus!
