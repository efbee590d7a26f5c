//! Where a device is reached.
use vstd::prelude::*;

use crate::text::{
    cat, chars_of, last_index, last_index_of, number_in, owned, parse_number, quoted, quoted_text,
    strip_start, text_between, without_start,
};

verus! {

/// Where a device is reached: a local serial port, or a bridge over TCP.
#[derive(Debug)]
pub enum Endpoint {
    /// A serial device, by its path.
    Serial(String),
    /// A raw byte pipe.
    Termhub(String, u16),
    /// A byte pipe behind a short negotiation.
    Telnet(String, u16),
}

/// What an [`Endpoint`] stands for.
#[verifier::ext_equal]
pub enum EndpointView {
    Serial(Seq<char>),
    Termhub(Seq<char>, u16),
    Telnet(Seq<char>, u16),
}

impl View for Endpoint {
    type V = EndpointView;

    open spec fn view(&self) -> EndpointView {
        match self {
            Endpoint::Serial(p) => EndpointView::Serial(p@),
            Endpoint::Termhub(h, p) => EndpointView::Termhub(h@, *p),
            Endpoint::Telnet(h, p) => EndpointView::Telnet(h@, *p),
        }
    }
}

/// The host and the port in `host:port`: the last colon parts them.
pub open spec fn host_port(s: Seq<char>) -> Result<(Seq<char>, u16), Seq<char>> {
    let i = last_index(s, ':', s.len() as int);
    if i < 0 {
        Err(quoted_text(s) + " isn't in the form host:port (e.g. localhost:10001)"@)
    } else {
        match number_in(s.subrange(i + 1, s.len() as int), 0, u16::MAX as int) {
            Some(p) => Ok((s.subrange(0, i), p as u16)),
            None => Err(
                quoted_text(s)
                    + " doesn't have a valid port number after the ':' (e.g. localhost:10001)"@,
            ),
        }
    }
}

/// Where a device string leads.
pub open spec fn endpoint_in(device: Seq<char>) -> Result<EndpointView, Seq<char>> {
    match without_start(device, "termhub://"@) {
        Some(rest) => match host_port(rest) {
            Ok((h, p)) => Ok(EndpointView::Termhub(h, p)),
            Err(e) => Err(e),
        },
        None => match without_start(device, "telnet://"@) {
            Some(rest) => match host_port(rest) {
                Ok((h, p)) => Ok(EndpointView::Telnet(h, p)),
                Err(e) => Err(e),
            },
            None => Ok(EndpointView::Serial(device)),
        },
    }
}

/// The host and the port in `host:port`.
pub fn split_host_port(s: &str) -> (r: Result<(String, u16), String>)
    ensures
        match r {
            Ok((h, p)) => host_port(s@) == Ok::<(Seq<char>, u16), Seq<char>>((h@, p)),
            Err(e) => host_port(s@) == Err::<(Seq<char>, u16), Seq<char>>(e@),
        },
{
    let chars = chars_of(s);
    let n: usize = chars.len();
    match last_index_of(chars.as_slice(), ':') {
        None => {
            let q = quoted(s);
            Err(cat(q.as_str(), " isn't in the form host:port (e.g. localhost:10001)"))
        },
        Some(i) => {
            let host = text_between(chars.as_slice(), 0, i);
            let port = text_between(chars.as_slice(), i + 1, n);
            match parse_number(port.as_str(), 0, u16::MAX as i128) {
                Some(p) => Ok((host, p as u16)),
                None => {
                    let q = quoted(s);
                    Err(
                        cat(
                            q.as_str(),
                            " doesn't have a valid port number after the ':' (e.g. localhost:10001)",
                        ),
                    )
                },
            }
        },
    }
}

/// Where a device string leads: `termhub://host:port` or
/// `telnet://host:port` to a bridge, anything else to a serial device.
pub fn endpoint_of(device: &str) -> (r: Result<Endpoint, String>)
    ensures
        match r {
            Ok(e) => endpoint_in(device@) == Ok::<EndpointView, Seq<char>>(e@),
            Err(e) => endpoint_in(device@) == Err::<EndpointView, Seq<char>>(e@),
        },
{
    if let Some(rest) = strip_start(device, "termhub://") {
        let (host, port) = split_host_port(rest.as_str())?;
        return Ok(Endpoint::Termhub(host, port));
    }
    if let Some(rest) = strip_start(device, "telnet://") {
        let (host, port) = split_host_port(rest.as_str())?;
        return Ok(Endpoint::Telnet(host, port));
    }
    Ok(Endpoint::Serial(owned(device)))
}

} // verus!
