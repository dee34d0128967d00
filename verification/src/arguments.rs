//! Command-line option handling: the pure interpretation of argument lists.
//! Reading the process's real arguments, the environment variable with user
//! defaults, and the file system stays outside; this module only decides what
//! a given list of words means.

use vstd::prelude::*;

verus! {

use crate::text::{dec_rep, parse_i32_spec, parse_i32, str_eq, u8_to_string};

/// Option values gathered from the argument words, before validation.
pub struct PendingArgs {
    pub menu_program: Option<String>,
    pub browser: Option<String>,
    pub bookmark_file_path: Option<String>,
    pub menu_rows: Option<String>,
    pub help: bool,
}

/// The mathematical content of a `PendingArgs`.
pub ghost struct PendingView {
    pub menu_program: Option<Seq<char>>,
    pub browser: Option<Seq<char>>,
    pub bookmark_file_path: Option<Seq<char>>,
    pub menu_rows: Option<Seq<char>>,
    pub help: bool,
}

pub open spec fn opt_view(o: Option<String>) -> Option<Seq<char>> {
    match o {
        Some(s) => Some(s@),
        None => None,
    }
}

impl View for PendingArgs {
    type V = PendingView;

    open spec fn view(&self) -> PendingView {
        PendingView {
            menu_program: opt_view(self.menu_program),
            browser: opt_view(self.browser),
            bookmark_file_path: opt_view(self.bookmark_file_path),
            menu_rows: opt_view(self.menu_rows),
            help: self.help,
        }
    }
}

/// The settled options the rest of the program runs with.
pub struct Arguments {
    pub menu_program: String,
    pub browser: String,
    pub bookmark_file_path: String,
    pub menu_rows: String,
}

/// The complaint for an argument word no option recognizes.
pub open spec fn unrecognized_message(arg: Seq<char>) -> Seq<char> {
    "Error: Unrecognized argument '"@ + arg
        + "'. Use '-h, --help' for more information about available options."@
}

/// Whether a help flag occurs anywhere in the words.
pub open spec fn has_help(args: Seq<Seq<char>>) -> bool {
    exists|i: int| 0 <= i < args.len() && (args[i] == "--help"@ || args[i] == "-h"@)
}

/// Interprets the words pairwise: an option name, then its value; an odd
/// trailing word is ignored.
pub open spec fn pairs_fold(args: Seq<Seq<char>>, i: int, p: PendingView) -> Result<
    PendingView,
    Seq<char>,
>
    decreases args.len() - i,
{
    if i < 0 || i + 1 >= args.len() {
        Ok(p)
    } else {
        let arg = args[i];
        let value = Some(args[i + 1]);
        if arg == "--menu"@ || arg == "-m"@ {
            pairs_fold(args, i + 2, PendingView { menu_program: value, ..p })
        } else if arg == "--browser"@ || arg == "-b"@ {
            pairs_fold(args, i + 2, PendingView { browser: value, ..p })
        } else if arg == "--path"@ || arg == "-p"@ {
            pairs_fold(args, i + 2, PendingView { bookmark_file_path: value, ..p })
        } else if arg == "--rows"@ || arg == "-r"@ {
            pairs_fold(args, i + 2, PendingView { menu_rows: value, ..p })
        } else {
            Err(unrecognized_message(arg))
        }
    }
}

/// One pass over a word list: a help flag short-circuits, otherwise the words
/// are read pairwise.
pub open spec fn process_spec(args: Seq<Seq<char>>, p: PendingView) -> Result<
    PendingView,
    Seq<char>,
> {
    if has_help(args) {
        Ok(PendingView { help: true, ..p })
    } else {
        pairs_fold(args, 0, p)
    }
}

/// Both passes: the user's defaults first, then the command line on top.
pub open spec fn argument_values_spec(
    args: Option<Seq<Seq<char>>>,
    user_defaults: Option<Seq<Seq<char>>>,
) -> Result<PendingView, Seq<char>> {
    let p0 = PendingView {
        menu_program: None,
        browser: None,
        bookmark_file_path: None,
        menu_rows: None,
        help: false,
    };
    let r1 = match user_defaults {
        Some(d) => process_spec(d, p0),
        None => Ok(p0),
    };
    match r1 {
        Ok(p1) => match args {
            Some(a) => process_spec(a, p1),
            None => Ok(p1),
        },
        Err(e) => Err(e),
    }
}

/// A row count clamped into the menu's displayable range.
pub open spec fn clamp_rows(v: int) -> int {
    if v < 1 {
        1
    } else if v > 255 {
        255
    } else {
        v
    }
}

impl Arguments {
    fn process_args(args: &Vec<String>, p: &mut PendingArgs) -> (r: Result<(), String>)
        requires
            args@.len() >= 1,
        ensures
            match r {
                Ok(_) => process_spec(args.deep_view(), old(p)@) == Ok::<
                    PendingView,
                    Seq<char>,
                >(final(p)@),
                Err(e) => process_spec(args.deep_view(), old(p)@) == Err::<
                    PendingView,
                    Seq<char>,
                >(e@),
            },
    {
        let ghost gargs = args.deep_view();
        let n = args.len();
        let mut h: usize = 0;
        while h < n
            invariant
                n == args@.len(),
                gargs == args.deep_view(),
                h <= n,
                *p == *old(p),
                forall|j: int| 0 <= j < h ==> gargs[j] != "--help"@ && gargs[j] != "-h"@,
            decreases n - h,
        {
            proof {
                assert(gargs[h as int] == args@[h as int]@);
            }
            if str_eq(args[h].as_str(), "--help") || str_eq(args[h].as_str(), "-h") {
                p.help = true;
                proof {
                    assert(has_help(gargs));
                }
                return Ok(());
            }
            h = h + 1;
        }
        proof {
            assert(!has_help(gargs));
        }
        let mut i: usize = 0;
        while i < n - 1
            invariant
                n == args@.len(),
                n >= 1,
                gargs == args.deep_view(),
                i <= n,
                !has_help(gargs),
                pairs_fold(gargs, 0, old(p)@) == pairs_fold(gargs, i as int, p@),
            decreases n - i,
        {
            proof {
                assert(gargs[i as int] == args@[i as int]@);
                assert(gargs[i as int + 1] == args@[i as int + 1]@);
            }
            let arg = &args[i];
            if str_eq(arg.as_str(), "--menu") || str_eq(arg.as_str(), "-m") {
                p.menu_program = Some(args[i + 1].clone());
            } else if str_eq(arg.as_str(), "--browser") || str_eq(arg.as_str(), "-b") {
                p.browser = Some(args[i + 1].clone());
            } else if str_eq(arg.as_str(), "--path") || str_eq(arg.as_str(), "-p") {
                p.bookmark_file_path = Some(args[i + 1].clone());
            } else if str_eq(arg.as_str(), "--rows") || str_eq(arg.as_str(), "-r") {
                p.menu_rows = Some(args[i + 1].clone());
            } else {
                let e = Self::unrecognized_arg_message(arg.as_str());
                return Err(e);
            }
            i = i + 2;
        }
        Ok(())
    }

    /// Folds the user's default words and the command-line words into one
    /// pending option set; an unrecognized word in either pass is an error.
    pub fn get_argument_values(args: Option<Vec<String>>, user_defaults: Option<Vec<String>>) -> (r:
        Result<PendingArgs, String>)
        requires
            args matches Some(a) ==> a@.len() >= 1,
            user_defaults matches Some(d) ==> d@.len() >= 1,
        ensures
            ({
                let ga = match args {
                    Some(a) => Some(a.deep_view()),
                    None => None::<Seq<Seq<char>>>,
                };
                let gd = match user_defaults {
                    Some(d) => Some(d.deep_view()),
                    None => None::<Seq<Seq<char>>>,
                };
                match r {
                    Ok(p) => argument_values_spec(ga, gd) == Ok::<PendingView, Seq<char>>(p@),
                    Err(e) => argument_values_spec(ga, gd) == Err::<PendingView, Seq<char>>(e@),
                }
            }),
    {
        let mut p = PendingArgs {
            menu_program: None,
            browser: None,
            bookmark_file_path: None,
            menu_rows: None,
            help: false,
        };
        if let Some(user_defaults) = &user_defaults {
            match Self::process_args(user_defaults, &mut p) {
                Ok(_) => {},
                Err(e) => {
                    return Err(e);
                },
            }
        }
        if let Some(args) = &args {
            match Self::process_args(args, &mut p) {
                Ok(_) => {},
                Err(e) => {
                    return Err(e);
                },
            }
        }
        Ok(p)
    }

    /// The menu program to use: the given one, or the default; only the four
    /// supported programs are accepted.
    pub fn get_menu_program(menu_program: Option<String>) -> (r: Result<String, String>)
        ensures
            ({
                let m: Seq<char> = match menu_program {
                    Some(s) => s@,
                    None => "bemenu"@,
                };
                if m == "bemenu"@ || m == "dmenu"@ || m == "rofi"@ || m == "fzf"@ {
                    r matches Ok(s) && s@ == m
                } else {
                    r matches Err(e) && e@ == "Unsupported menu program: "@ + m
                }
            }),
    {
        let m = match menu_program {
            Some(s) => s,
            None => "bemenu".to_owned(),
        };
        if str_eq(m.as_str(), "bemenu") || str_eq(m.as_str(), "dmenu") || str_eq(m.as_str(), "rofi")
            || str_eq(m.as_str(), "fzf") {
            Ok(m)
        } else {
            let mut e = "Unsupported menu program: ".to_owned();
            e.append(m.as_str());
            Err(e)
        }
    }

    /// The browser command: the given one, or the default.
    pub fn get_browser(browser: Option<String>) -> (r: String)
        ensures
            r@ == match browser {
                Some(b) => b@,
                None => "firefox"@,
            },
    {
        match browser {
            Some(b) => b,
            None => "firefox".to_owned(),
        }
    }

    /// The number of menu rows: a parsed value clamped into range, or the
    /// default when the words are not a number.
    pub fn get_menu_rows(rows: Option<String>) -> (r: String)
        ensures
            r@ == match rows {
                Some(s) => match parse_i32_spec(s@) {
                    Some(v) => dec_rep(clamp_rows(v as int) as nat),
                    None => "20"@,
                },
                None => "20"@,
            },
    {
        match rows {
            Some(s) => {
                match parse_i32(s.as_str()) {
                    Some(v) => {
                        let clamped: i32 = if v < 1 {
                            1
                        } else if v > 255 {
                            255
                        } else {
                            v
                        };
                        u8_to_string(clamped as u8)
                    },
                    None => "20".to_owned(),
                }
            },
            None => "20".to_owned(),
        }
    }

    /// The complaint for an argument word no option recognizes.
    pub fn unrecognized_arg_message(arg: &str) -> (r: String)
        ensures
            r@ == unrecognized_message(arg@),
    {
        let mut e = "Error: Unrecognized argument '".to_owned();
        e.append(arg);
        e.append("'. Use '-h, --help' for more information about available options.");
        e
    }
}

} // verus!
