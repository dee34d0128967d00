//! Environment-variable configuration, interpreted from plain values: the
//! surrounding code reads the variables and resolves paths and programs on
//! disk; this module validates and fills in defaults.

use vstd::prelude::*;

verus! {

use crate::text::{dec_rep, parse_u8_spec, parse_u8, str_eq, u8_to_string};

pub struct Environment {
    pub menu_program: String,
    pub browser: String,
    pub bookmark_file_path: String,
    pub menu_rows: String,
}

impl Environment {
    /// Settles the configuration from raw environment values: a supported
    /// menu program or the default, a browser or the default, the resolved
    /// bookmark file path, and a parsed row count or the default.
    pub fn new(
        menu_program: Option<String>,
        browser: Option<String>,
        bookmark_file_path: String,
        menu_rows: Option<String>,
    ) -> (r: Result<Environment, String>)
        ensures
            ({
                let m: Seq<char> = match menu_program {
                    Some(s) => s@,
                    None => "bemenu"@,
                };
                if m == "bemenu"@ || m == "dmenu"@ || m == "rofi"@ {
                    r matches Ok(env) && env.menu_program@ == m && env.browser@ == (match browser {
                        Some(b) => b@,
                        None => "firefox"@,
                    }) && env.bookmark_file_path@ == bookmark_file_path@ && env.menu_rows@
                        == (match menu_rows {
                        Some(s2) => match parse_u8_spec(s2@) {
                            Some(v) => dec_rep(v as nat),
                            None => "10"@,
                        },
                        None => "10"@,
                    })
                } else {
                    r matches Err(e) && e@ == "Unsupported menu program: "@ + m
                }
            }),
    {
        let m = match menu_program {
            Some(s) => s,
            None => "bemenu".to_owned(),
        };
        if !(str_eq(m.as_str(), "bemenu") || str_eq(m.as_str(), "dmenu") || str_eq(
            m.as_str(),
            "rofi",
        )) {
            let mut e = "Unsupported menu program: ".to_owned();
            e.append(m.as_str());
            return Err(e);
        }
        let b = match browser {
            Some(b) => b,
            None => "firefox".to_owned(),
        };
        let rows = match menu_rows {
            Some(s2) => {
                match parse_u8(s2.as_str()) {
                    Some(v) => u8_to_string(v),
                    None => "10".to_owned(),
                }
            },
            None => "10".to_owned(),
        };
        Ok(
            Environment {
                menu_program: m,
                browser: b,
                bookmark_file_path,
                menu_rows: rows,
            },
        )
    }

    pub fn menu_program(&self) -> (r: &str)
        ensures
            r@ == self.menu_program@,
    {
        self.menu_program.as_str()
    }

    pub fn browser(&self) -> (r: &str)
        ensures
            r@ == self.browser@,
    {
        self.browser.as_str()
    }

    pub fn bookmark_file_path(&self) -> (r: String)
        ensures
            r@ == self.bookmark_file_path@,
    {
        self.bookmark_file_path.clone()
    }

    pub fn menu_rows(&self) -> (r: String)
        ensures
            r@ == self.menu_rows@,
    {
        self.menu_rows.clone()
    }
}

} // verus!
