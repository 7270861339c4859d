//! Process configuration values: a host and two ports, and the selector
//! that picks which layered default set applies. Loading the values from
//! files and environment variables happens outside the core; the types and
//! the environment-name parsing are the part worth stating exactly.

use vstd::prelude::*;
use vstd::string::StrSliceExecFns;
use vstd::string::StringExecFns;

verus! {

/// The two listening ports of the backend.
#[derive(Clone, Debug, PartialEq, Eq)]
pub struct BackendConfig {
    pub rest_port: u16,
    pub ws_port: u16,
}

/// The full process configuration.
#[derive(Clone, Debug, PartialEq, Eq)]
pub struct Config {
    pub host: String,
    pub backend: BackendConfig,
}

/// Which layered default set applies.
#[derive(Clone, Copy, Debug, PartialEq, Eq, Structural)]
pub enum Environment {
    Local,
    Production,
}

/// ASCII lowercase of one character; anything but an ASCII capital stands
/// as itself.
pub open spec fn lower_char(c: char) -> char {
    if 'A' <= c && c <= 'Z' {
        ((c as int) + 32) as char
    } else {
        c
    }
}

/// ASCII lowercase of a whole string.
pub open spec fn spec_lower(s: Seq<char>) -> Seq<char> {
    s.map_values(|c: char| lower_char(c))
}

impl Environment {
    /// The name under which this environment is selected.
    pub open spec fn spec_str(self) -> Seq<char> {
        match self {
            Environment::Local => "local"@,
            Environment::Production => "prod"@,
        }
    }

    pub fn as_str(&self) -> (r: &'static str)
        ensures
            r@ == self.spec_str(),
    {
        match self {
            Environment::Local => "local",
            Environment::Production => "prod",
        }
    }

    /// Parses an environment name, case-insensitively.
    pub fn try_from(s: &str) -> (r: Result<Environment, String>)
        ensures
            spec_lower(s@) == "local"@ ==> r == Result::<Environment, String>::Ok(
                Environment::Local,
            ),
            spec_lower(s@) == "prod"@ ==> r == Result::<Environment, String>::Ok(
                Environment::Production,
            ),
            r is Err <==> spec_lower(s@) != "local"@ && spec_lower(s@) != "prod"@,
            r matches Err(e) ==> e@ == s@
                + " is not a supported environment. Use either `local` or `prod`."@,
    {
        proof {
            reveal_strlit("local");
            reveal_strlit("prod");
            assert("local"@.len() == 5);
            assert("prod"@.len() == 4);
            assert("local"@ != "prod"@);
        }
        if eq_lowered(s, "local") {
            Ok(Environment::Local)
        } else if eq_lowered(s, "prod") {
            Ok(Environment::Production)
        } else {
            let mut e = s.to_owned();
            e.append(" is not a supported environment. Use either `local` or `prod`.");
            Err(e)
        }
    }

    /// The file name of this environment's default set.
    pub fn config_filename(&self) -> (r: String)
        ensures
            r@ == self.spec_str() + ".yaml"@,
    {
        let mut f = self.as_str().to_owned();
        f.append(".yaml");
        f
    }
}

/// Whether `s`, lowered ASCII-wise, spells `lit`.
fn eq_lowered(s: &str, lit: &str) -> (b: bool)
    ensures
        b == (spec_lower(s@) == lit@),
{
    let n = s.unicode_len();
    if n != lit.unicode_len() {
        proof {
            assert(spec_lower(s@).len() == s@.len());
        }
        return false;
    }
    let mut i: usize = 0;
    while i < n
        invariant
            n == s@.len(),
            n == lit@.len(),
            i <= n,
            forall|q: int| 0 <= q < i ==> lower_char(s@[q]) == lit@[q],
        decreases n - i,
    {
        let c = s.get_char(i);
        let e = lit.get_char(i);
        let matched = if 'A' <= c && c <= 'Z' {
            (c as u32) + 32 == (e as u32)
        } else {
            c == e
        };
        if !matched {
            proof {
                assert(spec_lower(s@)[i as int] == lower_char(s@[i as int]));
                assert(lower_char(s@[i as int]) != lit@[i as int]);
            }
            return false;
        }
        i = i + 1;
    }
    proof {
        assert(spec_lower(s@) =~= lit@);
    }
    true
}

} // verus!
