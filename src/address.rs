use vstd::prelude::*;
use vstd::string::*;

verus! {

/// An IPv4 endpoint: the address as a 32-bit number in network order, and a port.
/// It identifies a peer of the mesh.
#[derive(Clone, Copy, Debug, PartialEq, Eq, Hash, Structural)]
pub struct Address {
    pub ip: u32,
    pub port: u16,
}

/// The character of a decimal digit.
pub open spec fn digit_char(d: nat) -> char {
    ((d + 48) as u32) as char
}

/// `n` written in decimal, without leading zeros.
pub open spec fn decimal(n: nat) -> Seq<char>
    decreases n,
{
    if n < 10 {
        seq![digit_char(n)]
    } else {
        decimal(n / 10) + seq![digit_char(n % 10)]
    }
}

/// The dotted form `a.b.c.d:port`.
pub open spec fn address_text(a: Address) -> Seq<char> {
    decimal(a.ip as nat / 0x100_0000) + "."@ + decimal((a.ip as nat / 0x1_0000) % 0x100) + "."@
        + decimal((a.ip as nat / 0x100) % 0x100) + "."@ + decimal(a.ip as nat % 0x100) + ":"@
        + decimal(a.port as nat)
}

fn digit(d: u32) -> (r: &'static str)
    requires
        d < 10,
    ensures
        r@ == seq![digit_char(d as nat)],
{
    match d {
        0 => {
            proof { reveal_strlit("0"); }
            "0"
        },
        1 => {
            proof { reveal_strlit("1"); }
            "1"
        },
        2 => {
            proof { reveal_strlit("2"); }
            "2"
        },
        3 => {
            proof { reveal_strlit("3"); }
            "3"
        },
        4 => {
            proof { reveal_strlit("4"); }
            "4"
        },
        5 => {
            proof { reveal_strlit("5"); }
            "5"
        },
        6 => {
            proof { reveal_strlit("6"); }
            "6"
        },
        7 => {
            proof { reveal_strlit("7"); }
            "7"
        },
        8 => {
            proof { reveal_strlit("8"); }
            "8"
        },
        _ => {
            proof { reveal_strlit("9"); }
            "9"
        },
    }
}

/// Appends `n` in decimal to `s`.
pub fn push_decimal(s: &mut String, n: u32)
    ensures
        final(s)@ == old(s)@ + decimal(n as nat),
    decreases n,
{
    if n >= 10 {
        push_decimal(s, n / 10);
    }
    s.append(digit(n % 10));
}

/// 127.0.0.1
pub const LOCALHOST: u32 = 0x7f00_0001;

impl Address {
    pub fn new(ip: u32, port: u16) -> (r: Address)
        ensures
            r.ip == ip,
            r.port == port,
    {
        Address { ip, port }
    }

    /// The endpoint `127.0.0.1:port`.
    pub fn localhost(port: u16) -> (r: Address)
        ensures
            r.ip == LOCALHOST,
            r.port == port,
    {
        Address { ip: LOCALHOST, port }
    }

    /// The address in its usual written form, `a.b.c.d:port`.
    pub fn render(&self) -> (r: String)
        ensures
            r@ == address_text(*self),
    {
        let mut s = String::new();
        push_decimal(&mut s, self.ip / 0x100_0000);
        s.append(".");
        push_decimal(&mut s, (self.ip / 0x1_0000) % 0x100);
        s.append(".");
        push_decimal(&mut s, (self.ip / 0x100) % 0x100);
        s.append(".");
        push_decimal(&mut s, self.ip % 0x100);
        s.append(":");
        push_decimal(&mut s, self.port as u32);
        s
    }
}

} // verus!
