//! The menu programs the tool can drive, and the pure parts of driving them:
//! which command line each program takes and how a default entry is merged to
//! the top of the item list. Spawning the program and reading its choice is
//! the surrounding code's business.

use vstd::prelude::*;

verus! {

use crate::text::{replace_all, replace_spec, str_eq};

pub enum Menu {
    Bemenu { rows: String },
    Dmenu { rows: String },
    Rofi { rows: String },
    Fzf,
}

impl Menu {
    pub fn new(menu_program: String, rows: String) -> (r: Result<Menu, String>)
        ensures
            ({
                let p = menu_program@;
                if p == "bemenu"@ {
                    r == Ok::<Menu, String>(Menu::Bemenu { rows })
                } else if p == "dmenu"@ {
                    r == Ok::<Menu, String>(Menu::Dmenu { rows })
                } else if p == "rofi"@ {
                    r == Ok::<Menu, String>(Menu::Rofi { rows })
                } else if p == "fzf"@ {
                    r == Ok::<Menu, String>(Menu::Fzf)
                } else {
                    r matches Err(e) && e@ == "Unsupported menu program: "@ + p
                }
            }),
    {
        if str_eq(menu_program.as_str(), "bemenu") {
            Ok(Menu::Bemenu { rows })
        } else if str_eq(menu_program.as_str(), "dmenu") {
            Ok(Menu::Dmenu { rows })
        } else if str_eq(menu_program.as_str(), "rofi") {
            Ok(Menu::Rofi { rows })
        } else if str_eq(menu_program.as_str(), "fzf") {
            Ok(Menu::Fzf)
        } else {
            let mut e = "Unsupported menu program: ".to_owned();
            e.append(menu_program.as_str());
            Err(e)
        }
    }

    /// The default entry moved to the top of the item list: its own line is
    /// removed from the items and prepended instead.
    pub fn merged_items(menu_items: Option<&str>, default: Option<&str>) -> (r: Option<String>)
        ensures
            match (menu_items, default) {
                (Some(items), Some(d)) => r matches Some(s) && s@ == d@ + seq!['\n']
                    + replace_spec(items@, d@ + seq!['\n'], Seq::<char>::empty()),
                (Some(items), None) => r matches Some(s) && s@ == items@,
                _ => r is None,
            },
    {
        match (menu_items, default) {
            (Some(items), Some(d)) => {
                let mut pat = d.to_owned();
                pat.append("\n");
                proof {
                    reveal_strlit("\n");
                    assert("\n"@ =~= seq!['\n']);
                    assert(pat@.len() > 0);
                }
                let stripped = replace_all(items, pat.as_str(), "");
                let mut out = d.to_owned();
                out.append("\n");
                out.append(stripped.as_str());
                proof {
                    reveal_strlit("");
                    assert(""@ =~= Seq::<char>::empty());
                    assert(out@ =~= d@ + seq!['\n'] + replace_spec(
                        items@,
                        d@ + seq!['\n'],
                        Seq::<char>::empty(),
                    ));
                }
                Some(out)
            },
            (Some(items), None) => Some(items.to_owned()),
            _ => None,
        }
    }

    /// The program name and argument list this menu is driven with.
    pub fn command_line(&self, prompt: &str) -> (r: (String, Vec<String>))
        ensures
            self matches Menu::Bemenu { rows } ==> r.0@ == "bemenu"@ && r.1.deep_view()
                =~~= seq!["-i"@, "-l"@, rows@, "-p"@, prompt@],
            self matches Menu::Dmenu { rows } ==> r.0@ == "dmenu"@ && r.1.deep_view()
                =~~= seq!["-i"@, "-l"@, rows@, "-p"@, prompt@],
            self matches Menu::Rofi { rows } ==> r.0@ == "rofi"@ && r.1.deep_view()
                =~~= seq!["-dmenu"@, "-i"@, "-l"@, rows@, "-p"@, prompt@],
            self matches Menu::Fzf ==> r.0@ == "fzf"@ && r.1.deep_view() =~~= seq![
                "-i"@,
                "--print-query"@,
                "--prompt"@,
                prompt@ + "> "@,
            ],
    {
        match self {
            Menu::Bemenu { rows } => {
                let mut args: Vec<String> = Vec::new();
                args.push("-i".to_owned());
                args.push("-l".to_owned());
                args.push(rows.clone());
                args.push("-p".to_owned());
                args.push(prompt.to_owned());
                proof {
                    assert(args.deep_view() =~~= seq!["-i"@, "-l"@, rows@, "-p"@, prompt@]);
                }
                ("bemenu".to_owned(), args)
            },
            Menu::Dmenu { rows } => {
                let mut args: Vec<String> = Vec::new();
                args.push("-i".to_owned());
                args.push("-l".to_owned());
                args.push(rows.clone());
                args.push("-p".to_owned());
                args.push(prompt.to_owned());
                proof {
                    assert(args.deep_view() =~~= seq!["-i"@, "-l"@, rows@, "-p"@, prompt@]);
                }
                ("dmenu".to_owned(), args)
            },
            Menu::Rofi { rows } => {
                let mut args: Vec<String> = Vec::new();
                args.push("-dmenu".to_owned());
                args.push("-i".to_owned());
                args.push("-l".to_owned());
                args.push(rows.clone());
                args.push("-p".to_owned());
                args.push(prompt.to_owned());
                proof {
                    assert(args.deep_view() =~~= seq![
                        "-dmenu"@,
                        "-i"@,
                        "-l"@,
                        rows@,
                        "-p"@,
                        prompt@,
                    ]);
                }
                ("rofi".to_owned(), args)
            },
            Menu::Fzf => {
                let mut full_prompt = prompt.to_owned();
                full_prompt.append("> ");
                let mut args: Vec<String> = Vec::new();
                args.push("-i".to_owned());
                args.push("--print-query".to_owned());
                args.push("--prompt".to_owned());
                args.push(full_prompt);
                proof {
                    assert(args.deep_view() =~~= seq![
                        "-i"@,
                        "--print-query"@,
                        "--prompt"@,
                        prompt@ + "> "@,
                    ]);
                }
                ("fzf".to_owned(), args)
            },
        }
    }
}

} // verus!
