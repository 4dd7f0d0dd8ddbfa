//! The command line of the stand-alone DNS relay that runs inside Docker.

use vstd::prelude::*;
use crate::text::{
    chars_of, parse_int, parse_int_of, string_of, IntErrorKind,
};

verus! {

broadcast use vstd::string::group_string_axioms;

/// What the relay forwards: NOTIFY on one UDP port to one target, and DNS
/// (UDP and TCP) on another port to another target.
pub struct ProxyArgs {
    pub notify_listen: u16,
    pub notify_target: String,
    pub dns_listen: u16,
    pub dns_target: String,
}

/// Why the relay's command line was refused.
pub enum ProxyArgsError {
    /// Not exactly four arguments after the program name.
    Usage,
    /// The NOTIFY port is not a port number.
    NotifyListen(IntErrorKind),
    /// The DNS port is not a port number.
    DnsListen(IntErrorKind),
}

/// Reads the relay's command line `PROG NOTIFY_LISTEN NOTIFY_TARGET
/// DNS_LISTEN DNS_TARGET`.
pub fn proxy_args(args: &Vec<String>) -> (r: Result<ProxyArgs, ProxyArgsError>)
    ensures
        args@.len() != 5 ==> r matches Err(ProxyArgsError::Usage),
        args@.len() == 5 ==> match parse_int(args@[1]@, 65535) {
            Err(k) => r matches Err(ProxyArgsError::NotifyListen(k2)) && k2 == k,
            Ok(n) => match parse_int(args@[3]@, 65535) {
                Err(k) => r matches Err(ProxyArgsError::DnsListen(k2)) && k2 == k,
                Ok(d) => r matches Ok(a) && a.notify_listen == n && a.notify_target@ == args@[2]@
                    && a.dns_listen == d && a.dns_target@ == args@[4]@,
            },
        },
{
    if args.len() != 5 {
        return Err(ProxyArgsError::Usage);
    }
    let notify_listen = match parse_int_of(&chars_of(args[1].as_str()), 65535) {
        Ok(v) => v as u16,
        Err(k) => return Err(ProxyArgsError::NotifyListen(k)),
    };
    let dns_listen = match parse_int_of(&chars_of(args[3].as_str()), 65535) {
        Ok(v) => v as u16,
        Err(k) => return Err(ProxyArgsError::DnsListen(k)),
    };
    Ok(
        ProxyArgs {
            notify_listen,
            notify_target: string_of(&chars_of(args[2].as_str())),
            dns_listen,
            dns_target: string_of(&chars_of(args[4].as_str())),
        },
    )
}

} // verus!
