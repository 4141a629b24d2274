//! The command line: flags, the pattern and the paths to search.

use vstd::prelude::*;
use vstd::string::{StrSliceExecFns, StringExecFns};

verus! {

/// When matches are coloured.
#[derive(Debug, Clone, Copy, PartialEq, Eq)]
pub enum ColorWhen {
    Always,
    Never,
    Auto,
}

/// The settings that the command line gives.
#[derive(Debug)]
pub struct Config {
    pub pattern: String,
    pub anchored: bool,
    pub use_o: bool,
    pub recursive: bool,
    pub color: ColorWhen,
    pub paths: Vec<String>,
}

/// The characters of each argument.
pub open spec fn arg_views(args: Seq<String>) -> Seq<Seq<char>> {
    args.map_values(|s: String| s@)
}

pub open spec fn has_arg(args: Seq<Seq<char>>, a: Seq<char>) -> bool {
    exists|i: int| 0 <= i < args.len() && args[i] == a
}

/// The index of the first argument equal to `a` from `from` on, or the
/// number of arguments when there is none.
pub open spec fn arg_index(args: Seq<Seq<char>>, a: Seq<char>, from: int) -> int
    decreases args.len() - from,
{
    if from >= args.len() {
        args.len() as int
    } else if args[from] == a {
        from
    } else {
        arg_index(args, a, from + 1)
    }
}

/// The colour setting: `--color=always` wins over `--color=never`, which
/// wins over `--color=auto`; without any of them colour is off.
pub open spec fn color_choice(args: Seq<Seq<char>>) -> ColorWhen {
    if has_arg(args, "--color=always"@) {
        ColorWhen::Always
    } else if has_arg(args, "--color=never"@) {
        ColorWhen::Never
    } else if has_arg(args, "--color=auto"@) {
        ColorWhen::Auto
    } else {
        ColorWhen::Never
    }
}

/// Whether to colour the output: always, never, or, for `Auto`, exactly
/// when the output goes to a terminal (`is_tty`).
pub fn use_color(color: ColorWhen, is_tty: bool) -> (r: bool)
    ensures
        r == match color {
            ColorWhen::Always => true,
            ColorWhen::Never => false,
            ColorWhen::Auto => is_tty,
        },
{
    match color {
        ColorWhen::Always => true,
        ColorWhen::Never => false,
        ColorWhen::Auto => is_tty,
    }
}

fn contains_arg(args: &Vec<String>, a: &str) -> (r: bool)
    ensures
        r == has_arg(arg_views(args@), a@),
{
    let want = String::from_str(a);
    let mut i: usize = 0;
    while i < args.len()
        invariant
            i <= args@.len(),
            want@ == a@,
            forall|j: int| 0 <= j < i ==> args@[j]@ != a@,
        decreases args@.len() - i,
    {
        if args[i] == want {
            assert(arg_views(args@)[i as int] == a@);
            return true;
        }
        i += 1;
    }
    assert forall|j: int| 0 <= j < args@.len() implies arg_views(args@)[j] != a@ by {
        assert(arg_views(args@)[j] == args@[j]@);
    }
    false
}

fn position_of(args: &Vec<String>, a: &str) -> (r: usize)
    ensures
        r == arg_index(arg_views(args@), a@, 0),
{
    let want = String::from_str(a);
    let mut i: usize = 0;
    while i < args.len()
        invariant
            i <= args@.len(),
            want@ == a@,
            arg_index(arg_views(args@), a@, 0) == arg_index(arg_views(args@), a@, i as int),
        decreases args@.len() - i,
    {
        assert(arg_views(args@)[i as int] == args@[i as int]@);
        if args[i] == want {
            return i;
        }
        i += 1;
    }
    i
}

/// Reads the command line: the flags `-o`, `-r` and `--color=...`, the
/// pattern after `-E`, and the paths after the pattern. A pattern that
/// starts with `^` is anchored.
pub fn parse_args(args: Vec<String>) -> (r: Config)
    requires
        arg_index(arg_views(args@), "-E"@, 0) + 1 < args@.len(),
    ensures
        r.use_o == has_arg(arg_views(args@), "-o"@),
        r.recursive == has_arg(arg_views(args@), "-r"@),
        r.color == color_choice(arg_views(args@)),
        r.pattern@ == arg_views(args@)[arg_index(arg_views(args@), "-E"@, 0) + 1],
        r.anchored == (r.pattern@.len() > 0 && r.pattern@[0] == '^'),
        arg_views(r.paths@) == arg_views(args@).subrange(
            arg_index(arg_views(args@), "-E"@, 0) + 2,
            args@.len() as int,
        ),
{
    let use_o = contains_arg(&args, "-o");
    let recursive = contains_arg(&args, "-r");
    let color = if contains_arg(&args, "--color=always") {
        ColorWhen::Always
    } else if contains_arg(&args, "--color=never") {
        ColorWhen::Never
    } else if contains_arg(&args, "--color=auto") {
        ColorWhen::Auto
    } else {
        ColorWhen::Never
    };
    let n = args.len();
    let pattern_idx = position_of(&args, "-E") + 1;
    let pattern = args[pattern_idx].clone();
    assert(arg_views(args@)[pattern_idx as int] == args@[pattern_idx as int]@);
    let anchored = pattern.as_str().unicode_len() > 0 && pattern.as_str().get_char(0) == '^';
    let mut paths: Vec<String> = Vec::new();
    let mut k = pattern_idx + 1;
    while k < args.len()
        invariant
            pattern_idx + 1 <= k <= args@.len(),
            arg_views(paths@) == arg_views(args@).subrange(pattern_idx + 1, k as int),
        decreases args@.len() - k,
    {
        let ghost before = paths@;
        let a = args[k].clone();
        paths.push(a);
        assert(paths@ == before.push(args@[k as int]));
        assert(arg_views(paths@) =~= arg_views(before).push(args@[k as int]@));
        assert(arg_views(args@).subrange(pattern_idx + 1, k + 1) =~= arg_views(args@).subrange(pattern_idx + 1, k as int).push(args@[k as int]@));
        k += 1;
    }
    Config { pattern, anchored, use_o, recursive, color, paths }
}

} // verus!
