//! Command-line options: `--port N` and `--host H`.
use vstd::prelude::*;
use crate::parser::{all_digits, digits_value};

verus! {

pub const DEFAULT_PORT: u16 = 4567;

pub open spec fn default_host() -> Seq<char> {
    "127.0.0.1"@
}

/// What `str::parse::<u16>` gives: an optional '+', then one or more
/// decimal digits, at most 65535.
pub open spec fn parse_port_text(s: Seq<char>) -> Option<u16> {
    let d = if s.len() > 0 && s[0] == '+' {
        s.skip(1)
    } else {
        s
    };
    if all_digits(d) && digits_value(d) <= u16::MAX {
        Some(digits_value(d) as u16)
    } else {
        None
    }
}

/// The port of the first `--port` option, from position `i` on, that is
/// followed by a valid port number.
pub open spec fn port_from(args: Seq<Seq<char>>, i: nat) -> u16
    decreases args.len() - i,
{
    if i >= args.len() {
        DEFAULT_PORT
    } else if args[i as int] == "--port"@ && i + 1 < args.len() && parse_port_text(args[i + 1 as int]) is Some {
        parse_port_text(args[i + 1 as int]).unwrap()
    } else {
        port_from(args, i + 1)
    }
}

/// The host and port set by `--host H` and `--port N` options, scanning
/// from position `i` with the values found so far: each option consumes
/// its value; a later option overrides an earlier one; an invalid port is
/// skipped together with its option.
pub open spec fn host_port_from(args: Seq<Seq<char>>, i: nat, host: Seq<char>, port: u16) -> (Seq<char>, u16)
    decreases args.len() - i,
{
    if i >= args.len() {
        (host, port)
    } else if args[i as int] == "--host"@ && i + 1 < args.len() {
        host_port_from(args, i + 2, args[i + 1 as int], port)
    } else if args[i as int] == "--port"@ && i + 1 < args.len() {
        let p = match parse_port_text(args[i + 1 as int]) {
            Some(n) => n,
            None => port,
        };
        host_port_from(args, i + 2, host, p)
    } else {
        host_port_from(args, i + 1, host, port)
    }
}

/// `str::parse::<u16>`.
pub fn parse_port_number(s: &str) -> (r: Option<u16>)
    ensures
        r == parse_port_text(s@),
{
    let cs = crate::text::chars_of(s);
    let n = cs.len();
    let start: usize = if n > 0 && cs[0] == '+' { 1 } else { 0 };
    let ghost d = cs@.subrange(start as int, n as int);
    assert(start == 1 ==> s@.skip(1) =~= d);
    assert(start == 0 ==> s@ =~= d);
    if start == n {
        return None;
    }
    let mut acc: u64 = 0;
    let mut k = start;
    assert(cs@.subrange(start as int, start as int) =~= Seq::<char>::empty());
    while k < n
        invariant
            start <= k <= n,
            start == 0 || start == 1,
            n == cs@.len(),
            start < n,
            d == cs@.subrange(start as int, n as int),
            cs@ == s@,
            start == 1 ==> s@.skip(1) == d,
            start == 0 ==> s@ == d,
            start == 1 <==> (s@.len() > 0 && s@[0] == '+'),
            acc == digits_value(cs@.subrange(start as int, k as int)),
            acc <= u16::MAX,
            forall|j: int| start <= j < k ==> crate::parser::is_digit(#[trigger] cs@[j]),
        decreases n - k,
    {
        let c = cs[k];
        if !('0' <= c && c <= '9') {
            assert(!crate::parser::is_digit(d[k - start]));
            return None;
        }
        proof {
            crate::parser::lemma_digits_step(cs@, start as int, k as int);
        }
        acc = acc * 10 + ((c as u32) - ('0' as u32)) as u64;
        if acc > 0xffff {
            proof {
                if all_digits(d) {
                    assert(d.take(k + 1 - start) =~= cs@.subrange(start as int, k + 1));
                    crate::parser::lemma_digits_mono(d, k + 1 - start);
                }
            }
            return None;
        }
        k = k + 1;
    }
    proof {
        assert(cs@.subrange(start as int, k as int) =~= d);
        assert forall|i: int| 0 <= i < d.len() implies crate::parser::is_digit(#[trigger] d[i]) by {
            assert(d[i] == cs@[start + i]);
        }
    }
    Some(acc as u16)
}

fn is_option(arg: &String, name: &str) -> (b: bool)
    ensures
        b == (arg@ == name@),
{
    let n = String::from_str(name);
    arg.eq(&n)
}

/// The port given by `--port N`, or the default.
pub fn parse_port(args: &Vec<String>) -> (port: u16)
    ensures
        port == port_from(crate::protocol::strings_model(args@), 0),
{
    let ghost a = crate::protocol::strings_model(args@);
    let mut i: usize = 0;
    while i < args.len()
        invariant
            i <= args@.len(),
            a == crate::protocol::strings_model(args@),
            port_from(a, 0) == port_from(a, i as nat),
        decreases args@.len() - i,
    {
        assert(a[i as int] == args@[i as int]@);
        if is_option(&args[i], "--port") && i + 1 < args.len() {
            assert(a[i + 1] == args@[i + 1]@);
            if let Some(p) = parse_port_number(args[i + 1].as_str()) {
                return p;
            }
        }
        i = i + 1;
    }
    DEFAULT_PORT
}

/// The host and port given by `--host H` and `--port N`, or the defaults.
pub fn parse_host_port(args: &Vec<String>) -> (r: (String, u16))
    ensures
        (r.0@, r.1) == host_port_from(crate::protocol::strings_model(args@), 0, default_host(), DEFAULT_PORT),
{
    let ghost a = crate::protocol::strings_model(args@);
    let mut host = String::from_str("127.0.0.1");
    let mut port = DEFAULT_PORT;
    let mut i: usize = 0;
    while i < args.len()
        invariant
            a == crate::protocol::strings_model(args@),
            host_port_from(a, 0, default_host(), DEFAULT_PORT) == host_port_from(a, i as nat, host@, port),
        decreases args@.len() - i,
    {
        assert(a[i as int] == args@[i as int]@);
        if is_option(&args[i], "--host") && i + 1 < args.len() {
            assert(a[i + 1] == args@[i + 1]@);
            host = args[i + 1].clone();
            i = i + 2;
        } else if is_option(&args[i], "--port") && i + 1 < args.len() {
            assert(a[i + 1] == args@[i + 1]@);
            if let Some(p) = parse_port_number(args[i + 1].as_str()) {
                port = p;
            }
            i = i + 2;
        } else {
            i = i + 1;
        }
    }
    (host, port)
}

} // verus!
