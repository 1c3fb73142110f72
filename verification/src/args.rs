//! The command-line grammar.
//!
//! Options are consumed left to right: `-L` collects a library search
//! path, `-o` sets the output path, `-flavor` consumes and ignores its
//! value, a fixed set of flags and `--script=`/`-z…=…` forms are ignored,
//! any other option is fatal, and everything else is an input path.

use vstd::prelude::*;

use crate::error::LinkError;
use crate::section::{starts_with, str_has_prefix};

verus! {

/// The parsed command line.
#[derive(Debug, Clone)]
pub struct Args {
    /// Library search paths given with `-L`, in order. Whether each is a
    /// directory is for the caller to decide.
    pub library_paths: Vec<String>,
    /// Input file paths, in order.
    pub inputs: Vec<String>,
    /// The output path given with `-o`.
    pub output: String,
}

/// Whether `a` is one of the options that are accepted and ignored.
pub open spec fn spec_ignored(a: Seq<char>) -> bool {
    ||| a == "-nmagic"@
    ||| a == "-Bstatic"@
    ||| a == "-Bdynamic"@
    ||| a == "-Wl,--as-needed"@
    ||| a == "--as-needed"@
    ||| a == "--eh-frame-hdr"@
    ||| a == "-znoexecstack"@
    ||| a == "--gc-sections"@
    ||| a == "-O1"@
    ||| a == "-pie"@
}

/// Whether some character of `a` is `c`.
pub open spec fn spec_contains_char(a: Seq<char>, c: char) -> bool {
    exists|k: int| 0 <= k < a.len() && a[k] == c
}

/// Why the command line was rejected.
pub enum ParseFail {
    /// This option needs a value and none follows.
    MissingValue(Seq<char>),
    /// An option this linker does not know.
    Unknown(Seq<char>),
}

/// The state after consuming the arguments from index `i` on: library
/// paths, inputs, and the output path if one was given.
pub open spec fn spec_parse_from(
    argv: Seq<Seq<char>>,
    i: int,
    libs: Seq<Seq<char>>,
    ins: Seq<Seq<char>>,
    out: Option<Seq<char>>,
) -> Result<(Seq<Seq<char>>, Seq<Seq<char>>, Option<Seq<char>>), ParseFail>
    decreases argv.len() - i,
{
    if i < 0 || i >= argv.len() {
        Ok((libs, ins, out))
    } else {
        let a = argv[i];
        if a == "-L"@ {
            if i + 1 < argv.len() {
                spec_parse_from(argv, i + 2, libs.push(argv[i + 1]), ins, out)
            } else {
                Err(ParseFail::MissingValue(a))
            }
        } else if a == "-o"@ {
            if i + 1 < argv.len() {
                spec_parse_from(argv, i + 2, libs, ins, Some(argv[i + 1]))
            } else {
                Err(ParseFail::MissingValue(a))
            }
        } else if a == "-flavor"@ {
            if i + 1 < argv.len() {
                spec_parse_from(argv, i + 2, libs, ins, out)
            } else {
                Err(ParseFail::MissingValue(a))
            }
        } else if spec_ignored(a) {
            spec_parse_from(argv, i + 1, libs, ins, out)
        } else if str_has_prefix(a, "--script="@) {
            spec_parse_from(argv, i + 1, libs, ins, out)
        } else if str_has_prefix(a, "-z"@) && spec_contains_char(a, '=') {
            spec_parse_from(argv, i + 1, libs, ins, out)
        } else if a.len() > 0 && a[0] == '-' {
            Err(ParseFail::Unknown(a))
        } else {
            spec_parse_from(argv, i + 1, libs, ins.push(a), out)
        }
    }
}

/// What the whole command line parses to.
pub open spec fn spec_parse(argv: Seq<Seq<char>>) -> Result<
    (Seq<Seq<char>>, Seq<Seq<char>>, Option<Seq<char>>),
    ParseFail,
> {
    spec_parse_from(argv, 0, Seq::empty(), Seq::empty(), None)
}

/// Whether some character of `s` is `c`.
fn contains_char(s: &String, c: char) -> (r: bool)
    ensures
        r == spec_contains_char(s@, c),
{
    let n = s.as_str().unicode_len();
    for k in 0..n
        invariant
            n == s@.len(),
            forall|j: int| 0 <= j < k ==> s@[j] != c,
    {
        if s.as_str().get_char(k) == c {
            return true;
        }
    }
    false
}

/// Parse the command line after the program name.
///
/// Fails exactly on the first option that needs a missing value or is
/// unknown, and when no `-o` output path was given.
#[verifier::loop_isolation(false)]
pub fn parse_args(argv: &Vec<String>) -> (r: Result<Args, LinkError>)
    ensures
        ({
            let av = argv@.map_values(|s: String| s@);
            match r {
                Ok(args) => spec_parse(av) == Ok::<_, ParseFail>(
                    (
                        args.library_paths@.map_values(|s: String| s@),
                        args.inputs@.map_values(|s: String| s@),
                        Some(args.output@),
                    ),
                ),
                Err(e) => match e {
                    LinkError::MissingOptionValue { option } => spec_parse(av) matches Err(f)
                        && f matches ParseFail::MissingValue(o) && option@ == o,
                    LinkError::UnknownOption { option } => spec_parse(av) matches Err(f)
                        && f matches ParseFail::Unknown(o) && option@ == o,
                    LinkError::MissingOutput => spec_parse(av) matches Ok(p) && p.2 is None,
                    _ => false,
                },
            }
        }),
{
    let ghost av = argv@.map_values(|s: String| s@);
    let opt_l = String::from_str("-L");
    let opt_o = String::from_str("-o");
    let opt_flavor = String::from_str("-flavor");
    let script_prefix = String::from_str("--script=");
    let z_prefix = String::from_str("-z");

    let mut library_paths: Vec<String> = Vec::new();
    let mut inputs: Vec<String> = Vec::new();
    let mut output: Option<String> = None;

    let n = argv.len();
    proof {
        assert(library_paths@.map_values(|s: String| s@) =~= Seq::<Seq<char>>::empty());
        assert(inputs@.map_values(|s: String| s@) =~= Seq::<Seq<char>>::empty());
    }
    let mut i: usize = 0;
    while i < n
        invariant
            i <= n,
            n == argv.len(),
            opt_l@ == "-L"@,
            opt_o@ == "-o"@,
            opt_flavor@ == "-flavor"@,
            script_prefix@ == "--script="@,
            z_prefix@ == "-z"@,
            spec_parse(av) == spec_parse_from(
                av,
                i as int,
                library_paths@.map_values(|s: String| s@),
                inputs@.map_values(|s: String| s@),
                match output {
                    Some(o) => Some(o@),
                    None => None,
                },
            ),
        decreases n - i,
    {
        proof {
            assert(argv@[i as int]@ == av[i as int]);
            if i + 1 < n {
                assert(argv@[i + 1]@ == av[i + 1]);
            }
        }
        let a = &argv[i];
        if *a == opt_l {
            if i + 1 < n {
                let ghost prev = library_paths@.map_values(|s: String| s@);
                library_paths.push(argv[i + 1].clone());
                proof {
                    assert(library_paths@.map_values(|s: String| s@) =~= prev.push(av[i + 1]));
                }
                i += 2;
            } else {
                return Err(LinkError::MissingOptionValue { option: a.clone() });
            }
        } else if *a == opt_o {
            if i + 1 < n {
                output = Some(argv[i + 1].clone());
                i += 2;
            } else {
                return Err(LinkError::MissingOptionValue { option: a.clone() });
            }
        } else if *a == opt_flavor {
            if i + 1 < n {
                i += 2;
            } else {
                return Err(LinkError::MissingOptionValue { option: a.clone() });
            }
        } else if is_ignored(a) {
            i += 1;
        } else if starts_with(a, &script_prefix) {
            i += 1;
        } else if starts_with(a, &z_prefix) && contains_char(a, '=') {
            i += 1;
        } else if a.as_str().unicode_len() > 0 && a.as_str().get_char(0) == '-' {
            return Err(LinkError::UnknownOption { option: a.clone() });
        } else {
            let ghost prev = inputs@.map_values(|s: String| s@);
            inputs.push(a.clone());
            proof {
                assert(inputs@.map_values(|s: String| s@) =~= prev.push(av[i as int]));
            }
            i += 1;
        }
    }
    match output {
        Some(out) => Ok(Args { library_paths, inputs, output: out }),
        None => Err(LinkError::MissingOutput),
    }
}

/// Whether `a` is one of the options that are accepted and ignored.
fn is_ignored(a: &String) -> (r: bool)
    ensures
        r == spec_ignored(a@),
{
    let mut r = false;
    let w = String::from_str("-nmagic");
    if *a == w {
        r = true;
    }
    let w = String::from_str("-Bstatic");
    if *a == w {
        r = true;
    }
    let w = String::from_str("-Bdynamic");
    if *a == w {
        r = true;
    }
    let w = String::from_str("-Wl,--as-needed");
    if *a == w {
        r = true;
    }
    let w = String::from_str("--as-needed");
    if *a == w {
        r = true;
    }
    let w = String::from_str("--eh-frame-hdr");
    if *a == w {
        r = true;
    }
    let w = String::from_str("-znoexecstack");
    if *a == w {
        r = true;
    }
    let w = String::from_str("--gc-sections");
    if *a == w {
        r = true;
    }
    let w = String::from_str("-O1");
    if *a == w {
        r = true;
    }
    let w = String::from_str("-pie");
    if *a == w {
        r = true;
    }
    r
}

} // verus!
