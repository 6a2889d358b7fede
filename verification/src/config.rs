//! Shared configuration types and the connection URLs they derive.

use vstd::prelude::*;

verus! {

/// The character of one decimal digit.
pub open spec fn digit_char(d: nat) -> char {
    if d == 0 {
        '0'
    } else if d == 1 {
        '1'
    } else if d == 2 {
        '2'
    } else if d == 3 {
        '3'
    } else if d == 4 {
        '4'
    } else if d == 5 {
        '5'
    } else if d == 6 {
        '6'
    } else if d == 7 {
        '7'
    } else if d == 8 {
        '8'
    } else {
        '9'
    }
}

/// The decimal rendering of a number, most significant digit first.
pub open spec fn dec_digits(n: nat) -> Seq<char>
    decreases n,
{
    if n < 10 {
        seq![digit_char(n)]
    } else {
        dec_digits(n / 10) + seq![digit_char(n % 10)]
    }
}

/// The string of one decimal digit.
fn digit_str(d: u64) -> (r: &'static str)
    requires
        d < 10,
    ensures
        r@ == seq![digit_char(d as nat)],
{
    if d == 0 {
        proof {
            reveal_strlit("0");
        }
        "0"
    } else if d == 1 {
        proof {
            reveal_strlit("1");
        }
        "1"
    } else if d == 2 {
        proof {
            reveal_strlit("2");
        }
        "2"
    } else if d == 3 {
        proof {
            reveal_strlit("3");
        }
        "3"
    } else if d == 4 {
        proof {
            reveal_strlit("4");
        }
        "4"
    } else if d == 5 {
        proof {
            reveal_strlit("5");
        }
        "5"
    } else if d == 6 {
        proof {
            reveal_strlit("6");
        }
        "6"
    } else if d == 7 {
        proof {
            reveal_strlit("7");
        }
        "7"
    } else if d == 8 {
        proof {
            reveal_strlit("8");
        }
        "8"
    } else {
        proof {
            reveal_strlit("9");
        }
        "9"
    }
}

/// Appends the decimal rendering of `n`.
fn push_decimal(out: &mut String, n: u64)
    ensures
        final(out)@ == old(out)@ + dec_digits(n as nat),
    decreases n,
{
    if n >= 10 {
        push_decimal(out, n / 10);
        out.append(digit_str(n % 10));
        proof {
            assert(out@ =~= old(out)@ + dec_digits(n as nat));
        }
    } else {
        out.append(digit_str(n));
        proof {
            assert(out@ =~= old(out)@ + dec_digits(n as nat));
        }
    }
}

/// Renders a number in decimal.
pub fn u64_to_dec(n: u64) -> (r: String)
    ensures
        r@ == dec_digits(n as nat),
{
    let mut out = String::new();
    push_decimal(&mut out, n);
    proof {
        assert(out@ =~= dec_digits(n as nat));
    }
    out
}

/// Where the coordination store lives: its hosts, the service key this
/// process deals in, and the URL scheme.
#[derive(Debug, Clone)]
pub struct EtcdConfig {
    pub hosts: Vec<String>,
    pub key: String,
    pub scheme: String,
}

impl EtcdConfig {
    /// One URL per host: `{scheme}://{host}`.
    pub fn urls(&self) -> (r: Vec<String>)
        ensures
            r@.len() == self.hosts@.len(),
            forall|i: int|
                0 <= i < r@.len() ==> (#[trigger] r@[i])@ == self.scheme@ + "://"@
                    + self.hosts@[i]@,
    {
        let mut out: Vec<String> = Vec::new();
        let mut i: usize = 0;
        while i < self.hosts.len()
            invariant
                i <= self.hosts@.len(),
                out@.len() == i,
                forall|j: int|
                    0 <= j < i ==> (#[trigger] out@[j])@ == self.scheme@ + "://"@
                        + self.hosts@[j]@,
            decreases self.hosts@.len() - i,
        {
            let mut url = self.scheme.clone();
            url.append("://");
            url.append(self.hosts[i].as_str());
            out.push(url);
            i = i + 1;
        }
        out
    }
}

/// Where the document store lives.
#[derive(Debug, Clone)]
pub struct MongoDbConfig {
    pub host: String,
    pub port: u16,
    pub user: String,
    pub password: String,
    pub database: String,
}

/// Where the relational store lives.
#[derive(Debug, Clone)]
pub struct PostgresConfig {
    pub host: String,
    pub port: u16,
    pub user: String,
    pub password: String,
    pub database: String,
}

impl PostgresConfig {
    /// The server part of the connection URL: credentials, host and port,
    /// with the password omitted when it is empty.
    pub open spec fn spec_server_url(&self) -> Seq<char> {
        if self.password@.len() == 0 {
            "postgres://"@ + self.user@ + "@"@ + self.host@ + ":"@ + dec_digits(self.port as nat)
        } else {
            "postgres://"@ + self.user@ + ":"@ + self.password@ + "@"@ + self.host@ + ":"@
                + dec_digits(self.port as nat)
        }
    }

    /// Builds the server part of the connection URL.
    pub fn server_url(&self) -> (r: String)
        ensures
            r@ == self.spec_server_url(),
    {
        let mut out = String::new();
        out.append("postgres://");
        out.append(self.user.as_str());
        if !self.password.as_str().is_empty() {
            out.append(":");
            out.append(self.password.as_str());
        }
        out.append("@");
        out.append(self.host.as_str());
        out.append(":");
        push_decimal(&mut out, self.port as u64);
        proof {
            assert(out@ =~= self.spec_server_url());
        }
        out
    }

    /// The full connection URL: `{server}/{database}`.
    pub fn url(&self) -> (r: String)
        ensures
            r@ == self.spec_server_url() + "/"@ + self.database@,
    {
        let mut out = self.server_url();
        out.append("/");
        out.append(self.database.as_str());
        out
    }
}

/// Where the cache lives.
#[derive(Debug, Clone)]
pub struct RedisConfig {
    pub host: String,
    pub port: u16,
}

impl RedisConfig {
    /// The connection URL: `redis://{host}:{port}`.
    pub fn url(&self) -> (r: String)
        ensures
            r@ == "redis://"@ + self.host@ + ":"@ + dec_digits(self.port as nat),
    {
        let mut out = String::new();
        out.append("redis://");
        out.append(self.host.as_str());
        out.append(":");
        push_decimal(&mut out, self.port as u64);
        proof {
            assert(out@ =~= "redis://"@ + self.host@ + ":"@ + dec_digits(self.port as nat));
        }
        out
    }
}

/// How tokens are signed: the signing secret and the access token
/// lifetime in seconds.
#[derive(Debug, Clone)]
pub struct JwtConfig {
    pub secret: String,
    pub access_expire: u64,
}

} // verus!
