//! Which name node a path names: the local file system, or a remote name
//! node given by the host and port of the path's URL.
use std::io::ErrorKind;
use url::Url;
use vstd::prelude::*;
use vstd::string::*;

verus! {

#[verifier::external_type_specification]
#[verifier::external_body]
pub struct ExUrl(url::Url);

/// Relies on url::Url::parse: the URL the text spells, `None` where it spells
/// none. What a URL holds stays opaque here.
#[verifier::external_body]
fn parse_url(path: &str) -> (r: Option<Url>) {
    Url::parse(path).ok()
}

/// Relies on url::Url::scheme: the URL's scheme.
pub assume_specification[ url::Url::scheme ](u: &Url) -> &str;

/// Relies on url::Url::host_str: the URL's host as written, if it has one.
pub assume_specification[ url::Url::host_str ](u: &Url) -> Option<&str>;

/// Relies on url::Url::port: the URL's port, if it names one.
pub assume_specification[ url::Url::port ](u: &Url) -> Option<u16>;

/// The scheme of paths on the local file system.
pub const LOCAL_FS_SCHEME: &'static str = "file";

/// Where a remote name node is reached: its host, written with the scheme
/// (`hdfs://namenode`), and its port.
pub struct HostPort {
    pub host: String,
    pub port: u16,
}

/// The name node a path names.
pub enum NNScheme {
    Local,
    Remote(HostPort),
}

/// The decimal digit `d`.
pub open spec fn digit_char(d: nat) -> char {
    if d == 0 {
        '0'
    } else if d == 1 {
        '1'
    } else if d == 2 {
        '2'
    } else if d == 3 {
        '3'
    } else if d == 4 {
        '4'
    } else if d == 5 {
        '5'
    } else if d == 6 {
        '6'
    } else if d == 7 {
        '7'
    } else if d == 8 {
        '8'
    } else {
        '9'
    }
}

/// `n` written in decimal, without leading zeros.
pub open spec fn decimal(n: nat) -> Seq<char>
    decreases n,
{
    if n < 10 {
        seq![digit_char(n)]
    } else {
        decimal(n / 10).push(digit_char(n % 10))
    }
}

impl NNScheme {
    /// The key of the name node: `file:///` for the local file system,
    /// `host:port` for a remote one.
    pub open spec fn key(&self) -> Seq<char> {
        match self {
            NNScheme::Local => "file:///"@,
            NNScheme::Remote(hp) => hp.host@ + ":"@ + decimal(hp.port as nat),
        }
    }

    /// The key of the name node, as [`NNScheme::key`] says.
    pub fn to_string(&self) -> (r: String)
        ensures
            r@ == self.key(),
    {
        match self {
            NNScheme::Local => String::from_str("file:///"),
            NNScheme::Remote(hp) => {
                let mut s = hp.host.clone();
                s.append(":");
                push_decimal(&mut s, hp.port);
                s
            },
        }
    }
}

fn digit_str(d: u16) -> (r: &'static str)
    requires
        d < 10,
    ensures
        r@ == seq![digit_char(d as nat)],
{
    proof {
        reveal_strlit("0");
        reveal_strlit("1");
        reveal_strlit("2");
        reveal_strlit("3");
        reveal_strlit("4");
        reveal_strlit("5");
        reveal_strlit("6");
        reveal_strlit("7");
        reveal_strlit("8");
        reveal_strlit("9");
    }
    if d == 0 {
        "0"
    } else if d == 1 {
        "1"
    } else if d == 2 {
        "2"
    } else if d == 3 {
        "3"
    } else if d == 4 {
        "4"
    } else if d == 5 {
        "5"
    } else if d == 6 {
        "6"
    } else if d == 7 {
        "7"
    } else if d == 8 {
        "8"
    } else {
        "9"
    }
}

/// Appends `n` in decimal to `s`.
fn push_decimal(s: &mut String, n: u16)
    ensures
        final(s)@ == old(s)@ + decimal(n as nat),
    decreases n,
{
    if n >= 10 {
        push_decimal(s, n / 10);
    }
    s.append(digit_str(n % 10));
    assert(final(s)@ =~= old(s)@ + decimal(n as nat));
}

/// Decides the name node from the parts of a URL: the local file system for
/// the `file` scheme; otherwise a remote name node where the URL has both a
/// host and a port, and `InvalidInput` where it lacks either.
pub fn name_node_from_parts(scheme: &str, host: Option<&str>, port: Option<u16>) -> (r: Result<
    NNScheme,
    ErrorKind,
>)
    ensures
        scheme@ == LOCAL_FS_SCHEME@ ==> r matches Ok(NNScheme::Local),
        scheme@ != LOCAL_FS_SCHEME@ ==> match r {
            Ok(NNScheme::Remote(hp)) => host is Some && port is Some && hp.host@ == scheme@
                + "://"@ + host->0@ && hp.port == port->0,
            Ok(NNScheme::Local) => false,
            Err(k) => k == ErrorKind::InvalidInput && (host is None || port is None),
        },
{
    if scheme.to_owned() == LOCAL_FS_SCHEME.to_owned() {
        return Ok(NNScheme::Local);
    }
    match (host, port) {
        (Some(h), Some(p)) => {
            let mut s = String::from_str(scheme);
            s.append("://");
            s.append(h);
            Ok(NNScheme::Remote(HostPort { host: s, port: p }))
        },
        _ => Err(ErrorKind::InvalidInput),
    }
}

/// The name node a path names: the decision of [`name_node_from_parts`] on
/// the parts of the path's URL, or `InvalidInput` where the path is no URL.
pub fn get_name_node(path: &str) -> (r: Result<NNScheme, ErrorKind>)
    ensures
        r matches Err(k) ==> k == ErrorKind::InvalidInput,
{
    match parse_url(path) {
        Some(url) => name_node_from_parts(url.scheme(), url.host_str(), url.port()),
        None => Err(ErrorKind::InvalidInput),
    }
}

} // verus!
