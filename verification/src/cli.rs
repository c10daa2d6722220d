//! Interpreting command-line arguments: the command (`new`, `run`,
//! `help`), the optional root directory and port, and the password and
//! insecure flags of `new`, with their conflict rules.
//!
//! Reading the argument list, checking the root path on disk and finding
//! the home directory happen outside the library; the interpretation of
//! the argument values is defined by `spec_parse_args` and proved here.

use vstd::prelude::*;

use crate::errors::CliError;
use crate::http::{chars_equal_str, copy_range, opt_str_view};
use crate::num::{all_digits_chars, dec_value_chars, is_digit_char, parse_u16_digits};
use crate::strings::chars_to_string;

verus! {

/// Spec-level mirror of [`CliCommand`].
pub enum CliCommandV {
    Help,
    New(Seq<char>, Option<Seq<char>>, bool),
    Run,
}

/// What the process was asked to do: show help, create a database (name,
/// optional password, insecure flag), or run the server.
pub enum CliCommand {
    Help,
    New(String, Option<String>, bool),
    Run,
}

impl View for CliCommand {
    type V = CliCommandV;

    open spec fn view(&self) -> CliCommandV {
        match self {
            CliCommand::Help => CliCommandV::Help,
            CliCommand::New(n, pw, insec) => CliCommandV::New(n@, opt_str_view(*pw), *insec),
            CliCommand::Run => CliCommandV::Run,
        }
    }
}

/// The resolved configuration: root directory, port, and command.
pub struct Cli {
    pub root: String,
    pub port: u16,
    pub command: CliCommand,
}

/// The views of an argument list, elementwise.
pub open spec fn arg_views(args: Seq<String>) -> Seq<Seq<char>> {
    args.map_values(|s: String| s@)
}

/// Whether `s` begins with `p`.
pub open spec fn spec_starts_with(s: Seq<char>, p: Seq<char>) -> bool {
    s.len() >= p.len() && s.subrange(0, p.len() as int) == p
}

/// Whether a character is allowed in a database name: an ASCII letter, a
/// digit, or `_`.
pub open spec fn is_name_char(c: char) -> bool {
    ('a' <= c <= 'z') || ('A' <= c <= 'Z') || ('0' <= c <= '9') || c == '_'
}

/// Whether every character of a database name is allowed.
pub open spec fn valid_db_name(s: Seq<char>) -> bool {
    forall|k: int| 0 <= k < s.len() ==> is_name_char(s[k])
}

/// The port a `--port` value names: digits only, within the 16-bit
/// unsigned range.
pub open spec fn spec_port(v: Seq<char>) -> Option<int> {
    if v.len() > 0 && all_digits_chars(v) && dec_value_chars(v) <= u16::MAX {
        Some(dec_value_chars(v))
    } else {
        None
    }
}

/// Folds the arguments from index `i` on into the `(root, port, command)`
/// state: `--root`, `--port` and `--password` take the next argument or a
/// `=` suffix, `--insecure` and `--password` exclude each other, the two
/// password switches belong to `new` alone, and anything else is ignored.
pub open spec fn spec_args_loop(
    args: Seq<Seq<char>>,
    i: int,
    root: Option<Seq<char>>,
    port: Option<int>,
    cmd: CliCommandV,
) -> Result<(Option<Seq<char>>, Option<int>, CliCommandV), CliError>
    decreases args.len() - i,
    when 0 <= i
{
    if i >= args.len() {
        Ok((root, port, cmd))
    } else {
        let a = args[i];
        if a == "--root"@ {
            if i + 1 >= args.len() {
                Err(CliError::MissingRootValue)
            } else {
                spec_args_loop(args, i + 2, Some(args[i + 1]), port, cmd)
            }
        } else if spec_starts_with(a, "--root="@) {
            spec_args_loop(args, i + 1, Some(a.skip(7)), port, cmd)
        } else if a == "--port"@ {
            if i + 1 >= args.len() {
                Err(CliError::MissingPortValue)
            } else {
                match spec_port(args[i + 1]) {
                    None => Err(CliError::InvalidPort),
                    Some(p) => spec_args_loop(args, i + 2, root, Some(p), cmd),
                }
            }
        } else if spec_starts_with(a, "--port="@) {
            match spec_port(a.skip(7)) {
                None => Err(CliError::InvalidPort),
                Some(p) => spec_args_loop(args, i + 1, root, Some(p), cmd),
            }
        } else if a == "--password"@ {
            if i + 1 >= args.len() {
                Err(CliError::MissingPasswordValue)
            } else {
                match cmd {
                    CliCommandV::New(n, _, insec) => {
                        if insec {
                            Err(CliError::ConflictingPasswordConfig)
                        } else {
                            spec_args_loop(
                                args,
                                i + 2,
                                root,
                                port,
                                CliCommandV::New(n, Some(args[i + 1]), insec),
                            )
                        }
                    },
                    _ => Err(CliError::PasswordOutsideNew),
                }
            }
        } else if spec_starts_with(a, "--password="@) {
            match cmd {
                CliCommandV::New(n, _, insec) => {
                    if insec {
                        Err(CliError::ConflictingPasswordConfig)
                    } else {
                        spec_args_loop(
                            args,
                            i + 1,
                            root,
                            port,
                            CliCommandV::New(n, Some(a.skip(11)), insec),
                        )
                    }
                },
                _ => Err(CliError::PasswordOutsideNew),
            }
        } else if a == "--insecure"@ {
            match cmd {
                CliCommandV::New(n, pw, _) => {
                    if pw is Some {
                        Err(CliError::ConflictingPasswordConfig)
                    } else {
                        spec_args_loop(args, i + 1, root, port, CliCommandV::New(n, pw, true))
                    }
                },
                _ => Err(CliError::InsecureOutsideNew),
            }
        } else {
            spec_args_loop(args, i + 1, root, port, cmd)
        }
    }
}

/// What an argument list means: the first argument names the command, a
/// `new` command takes the database name next, and the remaining
/// arguments are folded by `spec_args_loop`.
pub open spec fn spec_parse_args(args: Seq<Seq<char>>) -> Result<
    (Option<Seq<char>>, Option<int>, CliCommandV),
    CliError,
> {
    if args.len() <= 1 {
        Ok((None, None, CliCommandV::Help))
    } else {
        let first = args[1];
        if first == "new"@ {
            if args.len() == 2 {
                Err(CliError::MissingDatabaseName)
            } else if !valid_db_name(args[2]) {
                Err(CliError::InvalidDatabaseName)
            } else {
                spec_args_loop(args, 2, None, None, CliCommandV::New(args[2], None, false))
            }
        } else if first == "run"@ {
            spec_args_loop(args, 2, None, None, CliCommandV::Run)
        } else if first == "help"@ {
            spec_args_loop(args, 2, None, None, CliCommandV::Help)
        } else {
            Err(CliError::UnknownCommand)
        }
    }
}

/// The view of an optional parsed port.
pub open spec fn opt_port_view(p: Option<u16>) -> Option<int> {
    match p {
        Some(n) => Some(n as int),
        None => None,
    }
}

/// The command the exec loop state stands for.
pub open spec fn loop_cmd_view(
    is_new: bool,
    is_run: bool,
    name: Seq<char>,
    password: Option<Seq<char>>,
    insecure: bool,
) -> CliCommandV {
    if is_new {
        CliCommandV::New(name, password, insecure)
    } else if is_run {
        CliCommandV::Run
    } else {
        CliCommandV::Help
    }
}

/// True when `v` begins with the text of `s`.
fn chars_start_with(v: &Vec<char>, s: &str) -> (r: bool)
    ensures
        r == spec_starts_with(v@, s@),
{
    let n = s.unicode_len();
    if v.len() < n {
        return false;
    }
    let mut i: usize = 0;
    while i < n
        invariant
            n == s@.len(),
            n <= v@.len(),
            i <= n,
            forall|k: int| 0 <= k < i ==> v@[k] == s@[k],
        decreases n - i,
    {
        if v[i] != s.get_char(i) {
            return false;
        }
        i = i + 1;
    }
    proof {
        assert(v@.subrange(0, n as int) =~= s@);
    }
    true
}

/// Parses a `--port` value, exactly as `spec_port` says.
fn parse_port_chars(v: &Vec<char>) -> (r: Option<u16>)
    ensures
        opt_port_view(r) == spec_port(v@),
{
    if v.len() == 0 {
        return None;
    }
    let mut all_dig = true;
    let mut q: usize = 0;
    while q < v.len()
        invariant
            q <= v@.len(),
            all_dig == all_digits_chars(v@.subrange(0, q as int)),
        decreases v@.len() - q,
    {
        let ghost pref = v@.subrange(0, q as int);
        if !(v[q] >= '0' && v[q] <= '9') {
            all_dig = false;
        }
        proof {
            let sub = v@.subrange(0, q + 1);
            assert(sub.drop_last() =~= pref);
            assert(sub[q as int] == v@[q as int]);
            if all_digits_chars(sub) {
                assert forall|mm: int| 0 <= mm < pref.len() implies is_digit_char(pref[mm]) by {
                    assert(pref[mm] == sub[mm]);
                }
            }
            if all_digits_chars(pref) && is_digit_char(v@[q as int]) {
                assert forall|mm: int| 0 <= mm < sub.len() implies is_digit_char(sub[mm]) by {
                    if mm < q {
                        assert(sub[mm] == pref[mm]);
                    }
                }
            }
        }
        q = q + 1;
    }
    proof {
        assert(v@.subrange(0, v@.len() as int) =~= v@);
    }
    if !all_dig {
        return None;
    }
    let r = parse_u16_digits(v.as_slice(), 0, v.len());
    proof {
        assert(v@.subrange(0, v@.len() as int) =~= v@);
    }
    r
}

impl Cli {
    /// Interprets an argument list into the optional root, the optional
    /// port, and the command, exactly as `spec_parse_args` says. The
    /// caller checks any root path against the file system and fills in
    /// the defaults through `assemble`.
    #[verifier::loop_isolation(false)]
    #[verifier::rlimit(60)]
    pub fn parse_args(args: &Vec<String>) -> (r: Result<
        (Option<String>, Option<u16>, CliCommand),
        CliError,
    >)
        ensures
            match r {
                Ok(t) => spec_parse_args(arg_views(args@)) == Ok::<
                    (Option<Seq<char>>, Option<int>, CliCommandV),
                    CliError,
                >((opt_str_view(t.0), opt_port_view(t.1), t.2@)),
                Err(e) => spec_parse_args(arg_views(args@)) == Err::<
                    (Option<Seq<char>>, Option<int>, CliCommandV),
                    CliError,
                >(e),
            },
    {
        let ghost va = arg_views(args@);
        let n = args.len();
        let mut av: Vec<Vec<char>> = Vec::new();
        let mut j: usize = 0;
        while j < n
            invariant
                j <= n,
                n == args@.len(),
                av@.len() == j,
                forall|k: int| 0 <= k < j ==> av@[k]@ == va[k],
            decreases n - j,
        {
            let mut cv: Vec<char> = Vec::new();
            let s = args[j].as_str();
            let m = s.unicode_len();
            let mut k: usize = 0;
            while k < m
                invariant
                    m == s@.len(),
                    k <= m,
                    cv@ == s@.take(k as int),
                decreases m - k,
            {
                cv.push(s.get_char(k));
                proof {
                    assert(cv@ =~= s@.take(k + 1));
                }
                k = k + 1;
            }
            proof {
                assert(s@.take(m as int) =~= s@);
            }
            av.push(cv);
            j = j + 1;
        }
        if n <= 1 {
            return Ok((None, None, CliCommand::Help));
        }
        let mut is_new = false;
        let mut is_run = false;
        let mut name = String::new();
        if chars_equal_str(&av[1], "new") {
            if n == 2 {
                return Err(CliError::MissingDatabaseName);
            }
            let nv = &av[2];
            let mut k: usize = 0;
            while k < nv.len()
                invariant
                    k <= nv@.len(),
                    forall|m2: int| 0 <= m2 < k ==> is_name_char(nv@[m2]),
                decreases nv@.len() - k,
            {
                let c = nv[k];
                if !(('a' <= c && c <= 'z') || ('A' <= c && c <= 'Z') || ('0' <= c && c <= '9')
                    || c == '_') {
                    return Err(CliError::InvalidDatabaseName);
                }
                k = k + 1;
            }
            is_new = true;
            name = chars_to_string(&av[2]);
        } else if chars_equal_str(&av[1], "run") {
            is_run = true;
        } else if chars_equal_str(&av[1], "help") {
        } else {
            return Err(CliError::UnknownCommand);
        }
        let mut root: Option<String> = None;
        let mut port: Option<u16> = None;
        let mut password: Option<String> = None;
        let mut insecure = false;
        let ghost cmd0 = loop_cmd_view(is_new, is_run, name@, None, false);
        let mut i: usize = 2;
        while i < n
            invariant
                2 <= i <= n,
                spec_args_loop(va, 2, None, None, cmd0) == spec_args_loop(
                    va,
                    i as int,
                    opt_str_view(root),
                    opt_port_view(port),
                    loop_cmd_view(is_new, is_run, name@, opt_str_view(password), insecure),
                ),
            decreases n - i,
        {
            let a = &av[i];
            proof {
                assert(a@ == va[i as int]);
            }
            if chars_equal_str(a, "--root") {
                if i + 1 >= n {
                    return Err(CliError::MissingRootValue);
                }
                root = Some(args[i + 1].clone());
                i = i + 2;
            } else if chars_start_with(a, "--root=") {
                proof {
                    reveal_strlit("--root=");
                    assert("--root="@.len() == 7);
                }
                let suffix = copy_range(a, 7, a.len());
                proof {
                    assert(suffix@ =~= a@.skip(7));
                }
                root = Some(chars_to_string(&suffix));
                i = i + 1;
            } else if chars_equal_str(a, "--port") {
                if i + 1 >= n {
                    return Err(CliError::MissingPortValue);
                }
                match parse_port_chars(&av[i + 1]) {
                    None => {
                        return Err(CliError::InvalidPort);
                    },
                    Some(p) => {
                        port = Some(p);
                    },
                }
                i = i + 2;
            } else if chars_start_with(a, "--port=") {
                proof {
                    reveal_strlit("--port=");
                    assert("--port="@.len() == 7);
                }
                let suffix = copy_range(a, 7, a.len());
                proof {
                    assert(suffix@ =~= a@.skip(7));
                }
                match parse_port_chars(&suffix) {
                    None => {
                        return Err(CliError::InvalidPort);
                    },
                    Some(p) => {
                        port = Some(p);
                    },
                }
                i = i + 1;
            } else if chars_equal_str(a, "--password") {
                if i + 1 >= n {
                    return Err(CliError::MissingPasswordValue);
                }
                if !is_new {
                    return Err(CliError::PasswordOutsideNew);
                }
                if insecure {
                    return Err(CliError::ConflictingPasswordConfig);
                }
                password = Some(args[i + 1].clone());
                i = i + 2;
            } else if chars_start_with(a, "--password=") {
                proof {
                    reveal_strlit("--password=");
                    assert("--password="@.len() == 11);
                }
                if !is_new {
                    return Err(CliError::PasswordOutsideNew);
                }
                if insecure {
                    return Err(CliError::ConflictingPasswordConfig);
                }
                let suffix = copy_range(a, 11, a.len());
                proof {
                    assert(suffix@ =~= a@.skip(11));
                }
                password = Some(chars_to_string(&suffix));
                i = i + 1;
            } else if chars_equal_str(a, "--insecure") {
                if !is_new {
                    return Err(CliError::InsecureOutsideNew);
                }
                if password.is_some() {
                    return Err(CliError::ConflictingPasswordConfig);
                }
                insecure = true;
                i = i + 1;
            } else {
                i = i + 1;
            }
        }
        let command = if is_new {
            CliCommand::New(name, password, insecure)
        } else if is_run {
            CliCommand::Run
        } else {
            CliCommand::Help
        };
        Ok((root, port, command))
    }

    /// Fills in the defaults: a missing root falls back to `default_root`
    /// (the home directory's database folder, found by the caller), and a
    /// missing port falls back to 6100.
    pub fn assemble(
        root: Option<String>,
        port: Option<u16>,
        command: CliCommand,
        default_root: Option<String>,
    ) -> (r: Result<Cli, CliError>)
        ensures
            match r {
                Ok(c) => {
                    &&& match root {
                        Some(rt) => c.root == rt,
                        None => default_root matches Some(d) && c.root == d,
                    }
                    &&& c.port == (match port {
                        Some(p) => p,
                        None => 6100u16,
                    })
                    &&& c.command == command
                },
                Err(e) => e == CliError::NoHomeDirectory && root is None && default_root is None,
            },
    {
        let rt = match root {
            Some(rt) => rt,
            None => match default_root {
                Some(d) => d,
                None => {
                    return Err(CliError::NoHomeDirectory);
                },
            },
        };
        let pt = match port {
            Some(p) => p,
            None => 6100,
        };
        Ok(Cli { root: rt, port: pt, command })
    }
}

} // verus!
