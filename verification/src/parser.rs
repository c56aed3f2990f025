//! Command-line parsing: grouping raw arguments and turning the groups into
//! the options the program runs with.

use vstd::prelude::*;
use crate::text::str_eq;

verus! {

/// The options that the command line selects.
#[derive(Copy, Clone)]
pub struct Args<'a> {
    pub help: bool,
    pub version: bool,
    pub inject: bool,
    pub compress: bool,
    pub auto: bool,
    pub decompile: bool,
    pub uninstall: bool,
    pub linux_native: bool,
    pub balatro_path: Option<&'a str>,
    pub balatro_version: Option<&'a str>,
    pub input: Option<&'a str>,
    pub output: Option<&'a str>,
}

/// The mathematical value of [`Args`]: the string options by their characters.
pub struct ArgsModel {
    pub help: bool,
    pub version: bool,
    pub inject: bool,
    pub compress: bool,
    pub auto: bool,
    pub decompile: bool,
    pub uninstall: bool,
    pub linux_native: bool,
    pub balatro_path: Option<Seq<char>>,
    pub balatro_version: Option<Seq<char>>,
    pub input: Option<Seq<char>>,
    pub output: Option<Seq<char>>,
}

/// The characters of an optional string.
pub open spec fn opt_chars(o: Option<&str>) -> Option<Seq<char>> {
    match o {
        Some(s) => Some(s@),
        None => None,
    }
}

impl<'a> View for Args<'a> {
    type V = ArgsModel;

    open spec fn view(&self) -> ArgsModel {
        ArgsModel {
            help: self.help,
            version: self.version,
            inject: self.inject,
            compress: self.compress,
            auto: self.auto,
            decompile: self.decompile,
            uninstall: self.uninstall,
            linux_native: self.linux_native,
            balatro_path: opt_chars(self.balatro_path),
            balatro_version: opt_chars(self.balatro_version),
            input: opt_chars(self.input),
            output: opt_chars(self.output),
        }
    }
}

/// Every flag off and every value absent.
pub open spec fn default_model() -> ArgsModel {
    ArgsModel {
        help: false,
        version: false,
        inject: false,
        compress: false,
        auto: false,
        decompile: false,
        uninstall: false,
        linux_native: false,
        balatro_path: None,
        balatro_version: None,
        input: None,
        output: None,
    }
}

impl<'a> Default for Args<'a> {
    fn default() -> (res: Self)
        ensures
            res@ == default_model(),
    {
        Args {
            help: false,
            version: false,
            inject: false,
            compress: false,
            auto: false,
            decompile: false,
            uninstall: false,
            linux_native: false,
            balatro_path: None,
            balatro_version: None,
            input: None,
            output: None,
        }
    }
}

/// The options that take a value in the argument right after them.
pub open spec fn parametric(s: Seq<char>) -> bool {
    s == "-b"@ || s == "--balatro-path"@ || s == "-v"@ || s == "--balatro-version"@
        || s == "-i"@ || s == "--input"@ || s == "-o"@ || s == "--output"@
}

/// Whether `arg` is an option that takes a value.
pub fn is_parametric(arg: &str) -> (r: bool)
    ensures
        r == parametric(arg@),
{
    str_eq(arg, "-b") || str_eq(arg, "--balatro-path") || str_eq(arg, "-v")
        || str_eq(arg, "--balatro-version") || str_eq(arg, "-i") || str_eq(arg, "--input")
        || str_eq(arg, "-o") || str_eq(arg, "--output")
}

/// The groups of `args`: an option that takes a value is grouped with the
/// argument after it, any other argument stands alone.
pub open spec fn split_groups(args: Seq<Seq<char>>) -> Seq<Seq<Seq<char>>>
    decreases args.len(),
{
    if args.len() == 0 {
        Seq::empty()
    } else if parametric(args[0]) && args.len() >= 2 {
        seq![seq![args[0], args[1]]] + split_groups(args.skip(2))
    } else {
        seq![seq![args[0]]] + split_groups(args.skip(1))
    }
}

/// Whether every option that takes a value has an argument after it to take,
/// counting arguments already taken as values.
pub open spec fn values_present(args: Seq<Seq<char>>) -> bool
    decreases args.len(),
{
    if args.len() == 0 {
        true
    } else if parametric(args[0]) {
        args.len() >= 2 && values_present(args.skip(2))
    } else {
        values_present(args.skip(1))
    }
}

/// Unfolds [`split_groups`] and [`values_present`] at position `i`.
proof fn lemma_split_step(args: Seq<Seq<char>>, i: int)
    requires
        0 <= i < args.len(),
    ensures
        parametric(args[i]) && i + 1 < args.len() ==> {
            &&& split_groups(args.skip(i)) == seq![seq![args[i], args[i + 1]]] + split_groups(
                args.skip(i + 2),
            )
            &&& values_present(args.skip(i)) == values_present(args.skip(i + 2))
        },
        !parametric(args[i]) ==> {
            &&& split_groups(args.skip(i)) == seq![seq![args[i]]] + split_groups(args.skip(i + 1))
            &&& values_present(args.skip(i)) == values_present(args.skip(i + 1))
        },
        parametric(args[i]) && i + 1 == args.len() ==> !values_present(args.skip(i)),
{
    let rest = args.skip(i);
    assert(rest[0] == args[i]);
    if i + 1 < args.len() {
        assert(rest[1] == args[i + 1]);
        assert(rest.skip(2) =~= args.skip(i + 2));
    }
    assert(rest.skip(1) =~= args.skip(i + 1));
}

/// Whether [`split_args`] can group `args`: every option that takes a value
/// has its value.
pub fn all_values_present(args: &Vec<String>) -> (r: bool)
    ensures
        r == values_present(args.deep_view()),
{
    let ghost all = args.deep_view();
    assert(all.skip(0) =~= all);
    let mut i: usize = 0;
    while i < args.len()
        invariant
            i <= args.len(),
            all == args.deep_view(),
            values_present(all) == values_present(all.skip(i as int)),
        decreases args.len() - i,
    {
        proof {
            lemma_split_step(all, i as int);
        }
        if is_parametric(args[i].as_str()) {
            if i + 1 >= args.len() {
                return false;
            }
            i = i + 2;
        } else {
            i = i + 1;
        }
    }
    assert(all.skip(i as int) =~= Seq::<Seq<char>>::empty());
    true
}

/// Splits the raw arguments into groups: an option that takes a value
/// (`-b`, `-v`, `-i`, `-o` and their long forms) together with the argument
/// after it, and every other argument alone.
pub fn split_args<'a>(args: &'a Vec<String>) -> (res: Vec<Vec<&'a String>>)
    requires
        values_present(args.deep_view()),
    ensures
        res.deep_view() == split_groups(args.deep_view()),
        groups_nonempty(res.deep_view()),
{
    let ghost all = args.deep_view();
    let mut res: Vec<Vec<&'a String>> = Vec::new();
    assert(all.skip(0) =~= all);
    assert(res.deep_view() + split_groups(all) =~= split_groups(all));
    let mut i: usize = 0;
    while i < args.len()
        invariant
            i <= args.len(),
            all == args.deep_view(),
            values_present(all.skip(i as int)),
            res.deep_view() + split_groups(all.skip(i as int)) == split_groups(all),
        decreases args.len() - i,
    {
        proof {
            lemma_split_step(all, i as int);
        }
        let ghost before = res.deep_view();
        let arg: &'a String = &args[i];
        let mut group: Vec<&'a String> = Vec::new();
        group.push(arg);
        if is_parametric(arg.as_str()) {
            let value: &'a String = &args[i + 1];
            group.push(value);
            assert(group.deep_view() =~= seq![all[i as int], all[i + 1]]);
            i = i + 2;
        } else {
            assert(group.deep_view() =~= seq![all[i as int]]);
            i = i + 1;
        }
        res.push(group);
        assert(res.deep_view() =~= before.push(group.deep_view()));
        assert(before.push(group.deep_view()) + split_groups(all.skip(i as int)) =~= before + (
        seq![group.deep_view()] + split_groups(all.skip(i as int))));
    }
    assert(all.skip(i as int) =~= Seq::<Seq<char>>::empty());
    assert(res.deep_view() + Seq::<Seq<Seq<char>>>::empty() =~= res.deep_view());
    proof {
        lemma_split_shape(all);
    }
    res
}

/// The value a group gives its option: the argument after the option, if any.
pub open spec fn group_value(g: Seq<Seq<char>>) -> Option<Seq<char>> {
    if g.len() > 1 {
        Some(g[1])
    } else {
        None
    }
}

/// What an argument names, when it stands first in its group.
#[derive(PartialEq, Eq, Structural)]
pub enum OptKind {
    Auto,
    Compress,
    Decompile,
    Uninstall,
    Inject,
    LinuxNative,
    Help,
    Version,
    BalatroPath,
    BalatroVersion,
    Input,
    Output,
    Unknown,
}

/// The option that an argument names: a command (`a`, `c`, `d`, `u`, `x` or
/// their long forms), a flag, an option that takes a value, or nothing known.
pub open spec fn kind_of(a: Seq<char>) -> OptKind {
    if a == "a"@ || a == "auto"@ {
        OptKind::Auto
    } else if a == "c"@ || a == "compress"@ {
        OptKind::Compress
    } else if a == "d"@ || a == "decompile"@ {
        OptKind::Decompile
    } else if a == "u"@ || a == "uninstall"@ {
        OptKind::Uninstall
    } else if a == "x"@ || a == "inject"@ {
        OptKind::Inject
    } else if a == "--linux-native"@ {
        OptKind::LinuxNative
    } else if a == "--help"@ {
        OptKind::Help
    } else if a == "--version"@ {
        OptKind::Version
    } else if a == "-b"@ || a == "--balatro-path"@ {
        OptKind::BalatroPath
    } else if a == "-v"@ || a == "--balatro-version"@ {
        OptKind::BalatroVersion
    } else if a == "-i"@ || a == "--input"@ {
        OptKind::Input
    } else if a == "-o"@ || a == "--output"@ {
        OptKind::Output
    } else {
        OptKind::Unknown
    }
}

/// The option that `a` names.
pub fn option_kind(a: &str) -> (k: OptKind)
    ensures
        k == kind_of(a@),
{
    if str_eq(a, "a") || str_eq(a, "auto") {
        OptKind::Auto
    } else if str_eq(a, "c") || str_eq(a, "compress") {
        OptKind::Compress
    } else if str_eq(a, "d") || str_eq(a, "decompile") {
        OptKind::Decompile
    } else if str_eq(a, "u") || str_eq(a, "uninstall") {
        OptKind::Uninstall
    } else if str_eq(a, "x") || str_eq(a, "inject") {
        OptKind::Inject
    } else if str_eq(a, "--linux-native") {
        OptKind::LinuxNative
    } else if str_eq(a, "--help") {
        OptKind::Help
    } else if str_eq(a, "--version") {
        OptKind::Version
    } else if str_eq(a, "-b") || str_eq(a, "--balatro-path") {
        OptKind::BalatroPath
    } else if str_eq(a, "-v") || str_eq(a, "--balatro-version") {
        OptKind::BalatroVersion
    } else if str_eq(a, "-i") || str_eq(a, "--input") {
        OptKind::Input
    } else if str_eq(a, "-o") || str_eq(a, "--output") {
        OptKind::Output
    } else {
        OptKind::Unknown
    }
}

/// What one group of arguments does to the options.
pub open spec fn apply_group(m: ArgsModel, g: Seq<Seq<char>>) -> ArgsModel {
    match kind_of(g[0]) {
        OptKind::Auto => ArgsModel { auto: true, ..m },
        OptKind::Compress => ArgsModel { compress: true, ..m },
        OptKind::Decompile => ArgsModel { decompile: true, ..m },
        OptKind::Uninstall => ArgsModel { uninstall: true, ..m },
        OptKind::Inject => ArgsModel { inject: true, ..m },
        OptKind::LinuxNative => ArgsModel { linux_native: true, ..m },
        OptKind::Help => ArgsModel { help: true, ..m },
        OptKind::Version => ArgsModel { version: true, ..m },
        OptKind::BalatroPath => ArgsModel { balatro_path: group_value(g), ..m },
        OptKind::BalatroVersion => ArgsModel { balatro_version: group_value(g), ..m },
        OptKind::Input => ArgsModel { input: group_value(g), ..m },
        OptKind::Output => ArgsModel { output: group_value(g), ..m },
        OptKind::Unknown => m,
    }
}

/// The options that a list of groups selects: each group applied in turn,
/// starting from the defaults.
pub open spec fn parse_groups(groups: Seq<Seq<Seq<char>>>) -> ArgsModel
    decreases groups.len(),
{
    if groups.len() == 0 {
        default_model()
    } else {
        apply_group(parse_groups(groups.drop_last()), groups.last())
    }
}

/// Every group holds at least the option itself.
pub open spec fn groups_nonempty(groups: Seq<Seq<Seq<char>>>) -> bool {
    forall|i: int| 0 <= i < groups.len() ==> #[trigger] groups[i].len() > 0
}

/// The value a group gives, borrowed from the group.
fn value_of<'a>(group: &Vec<&'a String>) -> (r: Option<&'a str>)
    ensures
        opt_chars(r) == group_value(group.deep_view()),
{
    if group.len() > 1 {
        let v: &'a String = group[1];
        Some(v.as_str())
    } else {
        None
    }
}

/// Turns groups of arguments into the options they select; groups that name
/// no known option are ignored, and a later group overrides an earlier one.
pub fn parse_args<'a>(args: Vec<Vec<&'a String>>) -> (res: Args<'a>)
    requires
        groups_nonempty(args.deep_view()),
    ensures
        res@ == parse_groups(args.deep_view()),
{
    let ghost all = args.deep_view();
    let mut res = Args::default();
    let mut i: usize = 0;
    while i < args.len()
        invariant
            i <= args.len(),
            all == args.deep_view(),
            groups_nonempty(all),
            res@ == parse_groups(all.take(i as int)),
        decreases args.len() - i,
    {
        let group = &args[i];
        assert(group.deep_view() == all[i as int]);
        assert(all[i as int].len() > 0);
        let first: &'a String = group[0];
        let a = first.as_str();
        assert(a@ == all[i as int][0]);
        match option_kind(a) {
            OptKind::Auto => { res.auto = true; }
            OptKind::Compress => { res.compress = true; }
            OptKind::Decompile => { res.decompile = true; }
            OptKind::Uninstall => { res.uninstall = true; }
            OptKind::Inject => { res.inject = true; }
            OptKind::LinuxNative => { res.linux_native = true; }
            OptKind::Help => { res.help = true; }
            OptKind::Version => { res.version = true; }
            OptKind::BalatroPath => { res.balatro_path = value_of(group); }
            OptKind::BalatroVersion => { res.balatro_version = value_of(group); }
            OptKind::Input => { res.input = value_of(group); }
            OptKind::Output => { res.output = value_of(group); }
            OptKind::Unknown => {}
        }
        proof {
            let next = all.take(i + 1);
            assert(next.drop_last() =~= all.take(i as int));
            assert(next.last() == all[i as int]);
        }
        i = i + 1;
    }
    assert(all.take(i as int) =~= all);
    res
}

/// Whether some group names an option of kind `k`.
pub open spec fn named(groups: Seq<Seq<Seq<char>>>, k: OptKind) -> bool {
    exists|i: int| 0 <= i < groups.len() && #[trigger] kind_of(groups[i][0]) == k
}

/// The value of the last group that names an option of kind `k`, if one does.
pub open spec fn last_value(groups: Seq<Seq<Seq<char>>>, k: OptKind) -> Option<Seq<char>>
    decreases groups.len(),
{
    if groups.len() == 0 {
        None
    } else if kind_of(groups.last()[0]) == k {
        group_value(groups.last())
    } else {
        last_value(groups.drop_last(), k)
    }
}

/// Grouping loses and reorders nothing: the groups, put back together, are
/// the arguments.
pub proof fn lemma_split_flatten(args: Seq<Seq<char>>)
    ensures
        split_groups(args).flatten() == args,
    decreases args.len(),
{
    if args.len() > 0 {
        let k: int = if parametric(args[0]) && args.len() >= 2 { 2 } else { 1 };
        lemma_split_flatten(args.skip(k));
        let gs = split_groups(args);
        assert(gs.drop_first() =~= split_groups(args.skip(k)));
        assert(gs.first() =~= args.take(k));
        assert(args =~= args.take(k) + args.skip(k));
    }
}

/// Every group is an option that takes a value together with its value, or a
/// single argument that takes none; in particular no group is empty.
pub proof fn lemma_split_shape(args: Seq<Seq<char>>)
    requires
        values_present(args),
    ensures
        groups_nonempty(split_groups(args)),
        forall|i: int|
            0 <= i < split_groups(args).len() ==> {
                let g = #[trigger] split_groups(args)[i];
                (g.len() == 2 && parametric(g[0])) || (g.len() == 1 && !parametric(g[0]))
            },
    decreases args.len(),
{
    if args.len() > 0 {
        let k: int = if parametric(args[0]) { 2 } else { 1 };
        lemma_split_shape(args.skip(k));
        let gs = split_groups(args);
        assert forall|i: int| 0 < i < gs.len() implies gs[i] == split_groups(args.skip(k))[i - 1] by {}
    }
}

/// A flag is set exactly when some group names it, wherever that group
/// stands: flags are never cleared and their order does not matter.
pub proof fn lemma_flags_named(groups: Seq<Seq<Seq<char>>>)
    ensures
        parse_groups(groups).auto == named(groups, OptKind::Auto),
        parse_groups(groups).compress == named(groups, OptKind::Compress),
        parse_groups(groups).decompile == named(groups, OptKind::Decompile),
        parse_groups(groups).uninstall == named(groups, OptKind::Uninstall),
        parse_groups(groups).inject == named(groups, OptKind::Inject),
        parse_groups(groups).linux_native == named(groups, OptKind::LinuxNative),
        parse_groups(groups).help == named(groups, OptKind::Help),
        parse_groups(groups).version == named(groups, OptKind::Version),
    decreases groups.len(),
{
    if groups.len() > 0 {
        let init = groups.drop_last();
        lemma_flags_named(init);
        let n = groups.len() - 1;
        assert(groups[n] == groups.last());
        assert forall|k: OptKind|
            named(groups, k) == (named(init, k) || kind_of(groups.last()[0]) == k) by {
            if named(groups, k) {
                let i = choose|i: int| 0 <= i < groups.len() && #[trigger] kind_of(groups[i][0]) == k;
                if i < n {
                    assert(init[i] == groups[i]);
                }
            }
            if named(init, k) {
                let i = choose|i: int| 0 <= i < init.len() && #[trigger] kind_of(init[i][0]) == k;
                assert(init[i] == groups[i]);
            }
        }
    }
}

/// A value option holds the value of the last group that names it, and is
/// absent when no group does: a later group overrides an earlier one.
pub proof fn lemma_values_last(groups: Seq<Seq<Seq<char>>>)
    ensures
        parse_groups(groups).balatro_path == last_value(groups, OptKind::BalatroPath),
        parse_groups(groups).balatro_version == last_value(groups, OptKind::BalatroVersion),
        parse_groups(groups).input == last_value(groups, OptKind::Input),
        parse_groups(groups).output == last_value(groups, OptKind::Output),
    decreases groups.len(),
{
    if groups.len() > 0 {
        lemma_values_last(groups.drop_last());
    }
}

/// Appending groups only turns flags on, never off; and groups that name no
/// known option change nothing at all.
pub proof fn lemma_parse_append(a: Seq<Seq<Seq<char>>>, b: Seq<Seq<Seq<char>>>)
    ensures
        ({
            let r1 = parse_groups(a);
            let r2 = parse_groups(a + b);
            &&& r1.help ==> r2.help
            &&& r1.version ==> r2.version
            &&& r1.inject ==> r2.inject
            &&& r1.compress ==> r2.compress
            &&& r1.auto ==> r2.auto
            &&& r1.decompile ==> r2.decompile
            &&& r1.uninstall ==> r2.uninstall
            &&& r1.linux_native ==> r2.linux_native
        }),
        (forall|i: int| 0 <= i < b.len() ==> kind_of(#[trigger] b[i][0]) == OptKind::Unknown)
            ==> parse_groups(a + b) == parse_groups(a),
    decreases b.len(),
{
    if b.len() == 0 {
        assert(a + b =~= a);
    } else {
        let b0 = b.drop_last();
        lemma_parse_append(a, b0);
        assert((a + b).drop_last() =~= a + b0);
        assert((a + b).last() == b.last());
        assert(b.last() == b[b.len() - 1]);
        if forall|i: int| 0 <= i < b.len() ==> kind_of(#[trigger] b[i][0]) == OptKind::Unknown {
            assert forall|i: int| 0 <= i < b0.len() implies kind_of(#[trigger] b0[i][0])
                == OptKind::Unknown by {
                assert(b0[i] == b[i]);
            }
        }
    }
}

/// Which option each name sets, as the help text lists them: a command or a
/// flag, given alone, turns on its own flag and nothing else; a value
/// option (`-b`/`--balatro-path`, `-v`/`--balatro-version`, `-i`/`--input`,
/// `-o`/`--output`) given with a value sets that option to the value and
/// nothing else. This holds after any earlier groups.
pub proof fn lemma_option_names(a: Seq<Seq<Seq<char>>>, v: Seq<char>)
    ensures
        parse_groups(a.push(seq!["a"@])) == (ArgsModel { auto: true, ..parse_groups(a) }),
        parse_groups(a.push(seq!["auto"@])) == (ArgsModel { auto: true, ..parse_groups(a) }),
        parse_groups(a.push(seq!["c"@])) == (ArgsModel { compress: true, ..parse_groups(a) }),
        parse_groups(a.push(seq!["compress"@])) == (ArgsModel { compress: true, ..parse_groups(a) }),
        parse_groups(a.push(seq!["d"@])) == (ArgsModel { decompile: true, ..parse_groups(a) }),
        parse_groups(a.push(seq!["decompile"@])) == (ArgsModel { decompile: true, ..parse_groups(a) }),
        parse_groups(a.push(seq!["u"@])) == (ArgsModel { uninstall: true, ..parse_groups(a) }),
        parse_groups(a.push(seq!["uninstall"@])) == (ArgsModel { uninstall: true, ..parse_groups(a) }),
        parse_groups(a.push(seq!["x"@])) == (ArgsModel { inject: true, ..parse_groups(a) }),
        parse_groups(a.push(seq!["inject"@])) == (ArgsModel { inject: true, ..parse_groups(a) }),
        parse_groups(a.push(seq!["--linux-native"@])) == (ArgsModel { linux_native: true, ..parse_groups(a) }),
        parse_groups(a.push(seq!["--help"@])) == (ArgsModel { help: true, ..parse_groups(a) }),
        parse_groups(a.push(seq!["--version"@])) == (ArgsModel { version: true, ..parse_groups(a) }),
        parse_groups(a.push(seq!["-b"@, v])) == (ArgsModel { balatro_path: Some(v), ..parse_groups(a) }),
        parse_groups(a.push(seq!["--balatro-path"@, v])) == (ArgsModel { balatro_path: Some(v), ..parse_groups(a) }),
        parse_groups(a.push(seq!["-v"@, v])) == (ArgsModel { balatro_version: Some(v), ..parse_groups(a) }),
        parse_groups(a.push(seq!["--balatro-version"@, v])) == (ArgsModel { balatro_version: Some(v), ..parse_groups(a) }),
        parse_groups(a.push(seq!["-i"@, v])) == (ArgsModel { input: Some(v), ..parse_groups(a) }),
        parse_groups(a.push(seq!["--input"@, v])) == (ArgsModel { input: Some(v), ..parse_groups(a) }),
        parse_groups(a.push(seq!["-o"@, v])) == (ArgsModel { output: Some(v), ..parse_groups(a) }),
        parse_groups(a.push(seq!["--output"@, v])) == (ArgsModel { output: Some(v), ..parse_groups(a) }),
{
    reveal_strlit("a");
    reveal_strlit("auto");
    reveal_strlit("c");
    reveal_strlit("compress");
    reveal_strlit("d");
    reveal_strlit("decompile");
    reveal_strlit("u");
    reveal_strlit("uninstall");
    reveal_strlit("x");
    reveal_strlit("inject");
    reveal_strlit("--linux-native");
    reveal_strlit("--help");
    reveal_strlit("--version");
    reveal_strlit("-b");
    reveal_strlit("--balatro-path");
    reveal_strlit("-v");
    reveal_strlit("--balatro-version");
    reveal_strlit("-i");
    reveal_strlit("--input");
    reveal_strlit("-o");
    reveal_strlit("--output");
    assert("a"@.len() == 1 && "a"@[0] == 'a');
    assert("auto"@.len() == 4 && "auto"@[0] == 'a' && "auto"@[1] == 'u' && "auto"@[2] == 't');
    assert("c"@.len() == 1 && "c"@[0] == 'c');
    assert("compress"@.len() == 8 && "compress"@[0] == 'c' && "compress"@[1] == 'o' && "compress"@[2] == 'm');
    assert("d"@.len() == 1 && "d"@[0] == 'd');
    assert("decompile"@.len() == 9 && "decompile"@[0] == 'd' && "decompile"@[1] == 'e' && "decompile"@[2] == 'c');
    assert("u"@.len() == 1 && "u"@[0] == 'u');
    assert("uninstall"@.len() == 9 && "uninstall"@[0] == 'u' && "uninstall"@[1] == 'n' && "uninstall"@[2] == 'i');
    assert("x"@.len() == 1 && "x"@[0] == 'x');
    assert("inject"@.len() == 6 && "inject"@[0] == 'i' && "inject"@[1] == 'n' && "inject"@[2] == 'j');
    assert("--linux-native"@.len() == 14 && "--linux-native"@[0] == '-' && "--linux-native"@[1] == '-' && "--linux-native"@[2] == 'l');
    assert("--help"@.len() == 6 && "--help"@[0] == '-' && "--help"@[1] == '-' && "--help"@[2] == 'h');
    assert("--version"@.len() == 9 && "--version"@[0] == '-' && "--version"@[1] == '-' && "--version"@[2] == 'v');
    assert("-b"@.len() == 2 && "-b"@[0] == '-' && "-b"@[1] == 'b');
    assert("--balatro-path"@.len() == 14 && "--balatro-path"@[0] == '-' && "--balatro-path"@[1] == '-' && "--balatro-path"@[2] == 'b');
    assert("-v"@.len() == 2 && "-v"@[0] == '-' && "-v"@[1] == 'v');
    assert("--balatro-version"@.len() == 17 && "--balatro-version"@[0] == '-' && "--balatro-version"@[1] == '-' && "--balatro-version"@[2] == 'b');
    assert("-i"@.len() == 2 && "-i"@[0] == '-' && "-i"@[1] == 'i');
    assert("--input"@.len() == 7 && "--input"@[0] == '-' && "--input"@[1] == '-' && "--input"@[2] == 'i');
    assert("-o"@.len() == 2 && "-o"@[0] == '-' && "-o"@[1] == 'o');
    assert("--output"@.len() == 8 && "--output"@[0] == '-' && "--output"@[1] == '-' && "--output"@[2] == 'o');
    assert(kind_of("a"@) == OptKind::Auto);
    assert(kind_of("auto"@) == OptKind::Auto);
    assert(kind_of("c"@) == OptKind::Compress);
    assert(kind_of("compress"@) == OptKind::Compress);
    assert(kind_of("d"@) == OptKind::Decompile);
    assert(kind_of("decompile"@) == OptKind::Decompile);
    assert(kind_of("u"@) == OptKind::Uninstall);
    assert(kind_of("uninstall"@) == OptKind::Uninstall);
    assert(kind_of("x"@) == OptKind::Inject);
    assert(kind_of("inject"@) == OptKind::Inject);
    assert(kind_of("--linux-native"@) == OptKind::LinuxNative);
    assert(kind_of("--help"@) == OptKind::Help);
    assert(kind_of("--version"@) == OptKind::Version);
    assert(kind_of("-b"@) == OptKind::BalatroPath);
    assert(kind_of("--balatro-path"@) == OptKind::BalatroPath);
    assert(kind_of("-v"@) == OptKind::BalatroVersion);
    assert(kind_of("--balatro-version"@) == OptKind::BalatroVersion);
    assert(kind_of("-i"@) == OptKind::Input);
    assert(kind_of("--input"@) == OptKind::Input);
    assert(kind_of("-o"@) == OptKind::Output);
    assert(kind_of("--output"@) == OptKind::Output);
    assert(a.push(seq!["a"@]).drop_last() =~= a);
    assert(a.push(seq!["auto"@]).drop_last() =~= a);
    assert(a.push(seq!["c"@]).drop_last() =~= a);
    assert(a.push(seq!["compress"@]).drop_last() =~= a);
    assert(a.push(seq!["d"@]).drop_last() =~= a);
    assert(a.push(seq!["decompile"@]).drop_last() =~= a);
    assert(a.push(seq!["u"@]).drop_last() =~= a);
    assert(a.push(seq!["uninstall"@]).drop_last() =~= a);
    assert(a.push(seq!["x"@]).drop_last() =~= a);
    assert(a.push(seq!["inject"@]).drop_last() =~= a);
    assert(a.push(seq!["--linux-native"@]).drop_last() =~= a);
    assert(a.push(seq!["--help"@]).drop_last() =~= a);
    assert(a.push(seq!["--version"@]).drop_last() =~= a);
    assert(a.push(seq!["-b"@, v]).drop_last() =~= a);
    assert(a.push(seq!["--balatro-path"@, v]).drop_last() =~= a);
    assert(a.push(seq!["-v"@, v]).drop_last() =~= a);
    assert(a.push(seq!["--balatro-version"@, v]).drop_last() =~= a);
    assert(a.push(seq!["-i"@, v]).drop_last() =~= a);
    assert(a.push(seq!["--input"@, v]).drop_last() =~= a);
    assert(a.push(seq!["-o"@, v]).drop_last() =~= a);
    assert(a.push(seq!["--output"@, v]).drop_last() =~= a);
}

/// An option that takes a value is grouped with the argument after it,
/// whatever that argument is, and needs one.
pub proof fn lemma_split_value_option(s: Seq<char>, v: Seq<char>, rest: Seq<Seq<char>>)
    requires
        s == "-b"@ || s == "--balatro-path"@ || s == "-v"@ || s == "--balatro-version"@ || s == "-i"@ || s == "--input"@ || s == "-o"@ || s == "--output"@,
    ensures
        split_groups(seq![s, v] + rest) == seq![seq![s, v]] + split_groups(rest),
        values_present(seq![s, v] + rest) == values_present(rest),
        !values_present(seq![s]),
{
    let args = seq![s, v] + rest;
    assert(args[0] == s);
    assert(args[1] == v);
    assert(args.skip(2) =~= rest);
}

/// Every other argument, a command such as `d` among them, stands in a
/// group of its own and asks for no value.
pub proof fn lemma_split_other_argument(s: Seq<char>, rest: Seq<Seq<char>>)
    requires
        s != "-b"@ && s != "--balatro-path"@ && s != "-v"@ && s != "--balatro-version"@ && s != "-i"@ && s != "--input"@ && s != "-o"@ && s != "--output"@,
    ensures
        split_groups(seq![s] + rest) == seq![seq![s]] + split_groups(rest),
        values_present(seq![s] + rest) == values_present(rest),
{
    let args = seq![s] + rest;
    assert(args[0] == s);
    assert(args.skip(1) =~= rest);
}

} // verus!
