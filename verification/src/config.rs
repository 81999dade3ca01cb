use vstd::prelude::*;
use crate::text::{chars_of, trim_bounds, trimmed};

verus! {

broadcast use vstd::string::group_string_axioms;

/// Server settings.
#[derive(Clone, Debug)]
pub struct Config {
    pub database_url: String,
    pub bind_addr: String,
    pub admin_token: Option<String>,
    pub admin_crew: String,
}

/// An admin token setting counts only when it holds more than white space.
pub open spec fn spec_admin_token(v: Option<String>) -> Option<String> {
    match v {
        Some(t) => if trimmed(t@).len() > 0 {
            Some(t)
        } else {
            None
        },
        None => None,
    }
}

impl Config {
    /// Settings from the values of `DATABASE_URL`, `BIND_ADDR`,
    /// `CARTOBASE_ADMIN_TOKEN` and `CARTOBASE_ADMIN_CREW` (`None` where unset).
    /// Fails without a database URL; the bind address defaults to
    /// `0.0.0.0:8080` and the admin crew to `default`.
    pub fn from_values(
        database_url: Option<String>,
        bind_addr: Option<String>,
        admin_token: Option<String>,
        admin_crew: Option<String>,
    ) -> (r: Result<Config, String>)
        ensures
            database_url is None <==> r is Err,
            r matches Err(e) ==> e@ == "DATABASE_URL is required"@,
            r matches Ok(c) ==> {
                &&& c.database_url == database_url->0
                &&& c.bind_addr@ == match bind_addr {
                    Some(b) => b@,
                    None => "0.0.0.0:8080"@,
                }
                &&& c.admin_token == spec_admin_token(admin_token)
                &&& c.admin_crew@ == match admin_crew {
                    Some(a) => a@,
                    None => "default"@,
                }
            },
    {
        let database_url = match database_url {
            Some(u) => u,
            None => {
                return Err("DATABASE_URL is required".to_string());
            },
        };
        let bind_addr = match bind_addr {
            Some(b) => b,
            None => "0.0.0.0:8080".to_string(),
        };
        let admin_token = match admin_token {
            Some(t) => {
                let cs = chars_of(t.as_str());
                let (start, end) = trim_bounds(&cs);
                if start < end {
                    Some(t)
                } else {
                    None
                }
            },
            None => None,
        };
        let admin_crew = match admin_crew {
            Some(a) => a,
            None => "default".to_string(),
        };
        Ok(Config { database_url, bind_addr, admin_token, admin_crew })
    }
}

} // verus!
