//! Where the game, its archive, its save directory and Steam's libraries are.
//! A path is kept as its components; joining them is left to the platform.

use vstd::prelude::*;
use crate::platform::TargetOs;
use crate::text::{chars_of, contains_at, contains_sub, lines, split_on, split_ranges};

verus! {

/// A path: a base and the components joined onto it in order.
pub struct GamePath {
    pub parts: Vec<String>,
}

impl View for GamePath {
    type V = Seq<Seq<char>>;

    open spec fn view(&self) -> Seq<Seq<char>> {
        self.parts.deep_view()
    }
}

impl GamePath {
    /// The path `base`.
    pub fn new(base: &str) -> (p: GamePath)
        ensures
            p@ == seq![base@],
    {
        let mut parts: Vec<String> = Vec::new();
        parts.push(String::from_str(base));
        let p = GamePath { parts };
        assert(p@ =~= seq![base@]);
        p
    }

    /// This path with `part` joined onto it.
    pub fn join(self, part: &str) -> (p: GamePath)
        ensures
            p@ == self@.push(part@),
    {
        let ghost before = self@;
        let mut parts = self.parts;
        parts.push(String::from_str(part));
        let p = GamePath { parts };
        assert(p@ =~= before.push(part@));
        p
    }
}

/// The game's executable archive inside the installation directory `dir`.
pub open spec fn exe_path(dir: Seq<Seq<char>>, os: TargetOs) -> Seq<Seq<char>> {
    match os {
        TargetOs::MacOs => dir + seq!["Balatro.app"@, "Contents"@, "Resources"@, "Balatro.love"@],
        _ => dir.push("Balatro.exe"@),
    }
}

/// The game's executable archive inside the installation directory `path`:
/// `Balatro.exe` on Windows and Linux, the `.love` archive inside the
/// application bundle on macOS.
pub fn get_exe_path(path: GamePath, os: TargetOs) -> (r: GamePath)
    ensures
        r@ == exe_path(path@, os),
{
    match os {
        TargetOs::MacOs => {
            let r = path.join("Balatro.app").join("Contents").join("Resources").join("Balatro.love");
            assert(r@ =~= exe_path(path@, os));
            r
        },
        _ => path.join("Balatro.exe"),
    }
}

/// The game's save directory, where mods and the mod loader go. `env_dir` is
/// the user's home directory, or on Windows the roaming application data
/// directory (`%APPDATA%`).
pub open spec fn save_dir(linux_native: bool, os: TargetOs, env_dir: Seq<char>) -> Seq<Seq<char>> {
    match os {
        TargetOs::MacOs => seq![env_dir, "Library"@, "Application Support"@, "Balatro"@],
        TargetOs::Windows => seq![env_dir, "Balatro"@],
        TargetOs::Linux => if linux_native {
            seq![env_dir, ".local"@, "share"@, "love"@, "Balatro"@]
        } else {
            seq![
                env_dir,
                ".local"@,
                "share"@,
                "Steam"@,
                "steamapps"@,
                "compatdata"@,
                "2379780"@,
                "pfx"@,
                "drive_c"@,
                "users"@,
                "steamuser"@,
                "AppData"@,
                "Roaming"@,
                "Balatro"@,
            ]
        },
    }
}

/// The game's save directory for `os`; on Linux it depends on whether the
/// game runs natively or through Proton.
pub fn get_save_dir(linux_native: bool, os: TargetOs, env_dir: &str) -> (r: GamePath)
    ensures
        r@ == save_dir(linux_native, os, env_dir@),
{
    let base = GamePath::new(env_dir);
    let r = match os {
        TargetOs::MacOs => base.join("Library").join("Application Support").join("Balatro"),
        TargetOs::Windows => base.join("Balatro"),
        TargetOs::Linux => if linux_native {
            base.join(".local").join("share").join("love").join("Balatro")
        } else {
            base.join(".local").join("share").join("Steam").join("steamapps").join(
                "compatdata",
            ).join("2379780").join("pfx").join("drive_c").join("users").join("steamuser").join(
                "AppData",
            ).join("Roaming").join("Balatro")
        },
    };
    assert(r@ =~= save_dir(linux_native, os, env_dir@));
    r
}

/// Steam's directory under the home directory `home`; on Windows Steam's
/// directory is read from the registry instead.
pub open spec fn steam_dir(os: TargetOs, home: Seq<char>) -> Option<Seq<Seq<char>>> {
    match os {
        TargetOs::MacOs => Some(seq![home, "Library"@, "Application Support"@, "Steam"@]),
        TargetOs::Linux => Some(seq![home, ".local"@, "share"@, "Steam"@]),
        TargetOs::Windows => None,
    }
}

/// Steam's directory under the home directory `home`, on the systems where
/// it stands there.
pub fn get_steam_dir(os: TargetOs, home: &str) -> (r: Option<GamePath>)
    ensures
        match r {
            Some(p) => steam_dir(os, home@) == Some(p@),
            None => steam_dir(os, home@) is None,
        },
{
    let base = GamePath::new(home);
    match os {
        TargetOs::MacOs => {
            let r = base.join("Library").join("Application Support").join("Steam");
            assert(r@ =~= seq![home@, "Library"@, "Application Support"@, "Steam"@]);
            Some(r)
        },
        TargetOs::Linux => {
            let r = base.join(".local").join("share").join("Steam");
            assert(r@ =~= seq![home@, ".local"@, "share"@, "Steam"@]);
            Some(r)
        },
        TargetOs::Windows => None,
    }
}

/// The file in which Steam lists its libraries.
pub fn library_folders_file(steam: GamePath) -> (r: GamePath)
    ensures
        r@ == steam@.push("steamapps"@).push("libraryfolders.vdf"@),
{
    steam.join("steamapps").join("libraryfolders.vdf")
}

/// Whether a line of Steam's library list names a library: it holds the
/// `path` key between tabs, and a value after it.
pub open spec fn is_library_line(l: Seq<char>) -> bool {
    contains_sub(l, "\t\t\"path\"\t\t"@) && split_on(l, '"').len() > 3
}

/// The library directories that the lines `ls` name, in order: the fourth
/// field between double quotes of each line that names one.
pub open spec fn library_roots(ls: Seq<Seq<char>>) -> Seq<Seq<char>>
    decreases ls.len(),
{
    if ls.len() == 0 {
        Seq::empty()
    } else {
        let rest = library_roots(ls.drop_last());
        if is_library_line(ls.last()) {
            rest.push(split_on(ls.last(), '"')[3])
        } else {
            rest
        }
    }
}

/// Where the game would be installed in the library at `root`.
pub open spec fn game_in_library(root: Seq<char>) -> Seq<Seq<char>> {
    seq![root, "steamapps"@, "common"@, "Balatro"@]
}

/// The places where the game would be installed, one in each library that
/// Steam's library list `vdf` names, in the order of the list. Whether the
/// game is there is for the caller to check.
pub fn get_library_folders(vdf: &str) -> (r: Vec<GamePath>)
    ensures
        r@.len() == library_roots(lines(vdf@)).len(),
        forall|i: int|
            0 <= i < r@.len() ==> (#[trigger] r@[i])@ == game_in_library(
                library_roots(lines(vdf@))[i],
            ),
{
    let v = chars_of(vdf);
    let pat = chars_of("\t\t\"path\"\t\t");
    let ranges = split_ranges(&v, 0, v.len(), '\n');
    assert(v@.subrange(0, v@.len() as int) =~= v@);
    let ghost f = split_on(v@, '\n');
    let ghost ls = lines(v@);
    let n = ranges.len();
    proof {
        crate::text::lemma_split_nonempty(v@, '\n');
    }
    let (a_last, b_last) = ranges[n - 1];
    let count = if a_last == b_last { n - 1 } else { n };
    assert(ls.len() == count) by {
        assert(f[n - 1] == v@.subrange(a_last as int, b_last as int));
    }
    let mut r: Vec<GamePath> = Vec::new();
    let mut i: usize = 0;
    while i < count
        invariant
            v@ == vdf@,
            pat@ == "\t\t\"path\"\t\t"@,
            f == split_on(v@, '\n'),
            ls == lines(v@),
            n == ranges.len(),
            n == f.len(),
            count <= n,
            ls.len() == count,
            i <= count,
            forall|j: int|
                0 <= j < ranges.len() ==> {
                    &&& 0 <= (#[trigger] ranges@[j]).0 <= ranges@[j].1 <= v.len()
                    &&& v@.subrange(ranges@[j].0 as int, ranges@[j].1 as int) == f[j]
                },
            r@.len() == library_roots(ls.take(i as int)).len(),
            forall|j: int|
                0 <= j < r@.len() ==> (#[trigger] r@[j])@ == game_in_library(
                    library_roots(ls.take(i as int))[j],
                ),
        decreases count - i,
    {
        let (a, b0) = ranges[i];
        let b = if i < n - 1 && b0 > a && v[b0 - 1] == '\r' { b0 - 1 } else { b0 };
        assert(v@.subrange(a as int, b as int) == ls[i as int]) by {
            assert(ls[i as int] == if i < n - 1 { crate::text::strip_cr(f[i as int]) } else { f[i as int] });
            assert(f[i as int] == v@.subrange(a as int, b0 as int));
            if b < b0 {
                assert(v@.subrange(a as int, b as int) =~= v@.subrange(a as int, b0 as int).drop_last());
            }
        }
        let ghost line = ls[i as int];
        let ghost prev = library_roots(ls.take(i as int));
        assert(ls.take(i + 1).drop_last() =~= ls.take(i as int));
        assert(ls.take(i + 1).last() == line);
        if contains_at(&v, a, b, &pat) {
            let q = split_ranges(&v, a, b, '"');
            if q.len() > 3 {
                let (c, d) = q[3];
                let root = vdf.substring_char(c, d);
                let p = GamePath::new(root).join("steamapps").join("common").join("Balatro");
                assert(p@ =~= game_in_library(split_on(line, '"')[3]));
                r.push(p);
                assert(library_roots(ls.take(i + 1)) == prev.push(split_on(line, '"')[3]));
                assert forall|j: int| 0 <= j < r@.len() implies (#[trigger] r@[j])@ == game_in_library(
                    library_roots(ls.take(i + 1))[j],
                ) by {
                    if j < r@.len() - 1 {
                        assert(library_roots(ls.take(i + 1))[j] == prev[j]);
                    }
                }
            } else {
                assert(library_roots(ls.take(i + 1)) == prev);
            }
        } else {
            assert(library_roots(ls.take(i + 1)) == prev);
        }
        i = i + 1;
    }
    assert(ls.take(count as int) =~= ls);
    r
}

/// The lines of a library list name their libraries independently of one
/// another, in order: the roots of two runs of lines put together are the
/// roots of the first, then those of the second.
pub proof fn lemma_library_roots_append(a: Seq<Seq<char>>, b: Seq<Seq<char>>)
    ensures
        library_roots(a + b) == library_roots(a) + library_roots(b),
    decreases b.len(),
{
    if b.len() == 0 {
        assert(a + b =~= a);
        assert(library_roots(a) + Seq::<Seq<char>>::empty() =~= library_roots(a));
    } else {
        let b0 = b.drop_last();
        lemma_library_roots_append(a, b0);
        assert((a + b).drop_last() =~= a + b0);
        assert((a + b).last() == b.last());
        let ra = library_roots(a);
        let r0 = library_roots(b0);
        assert((ra + r0).push(split_on(b.last(), '"')[3]) =~= ra + r0.push(split_on(b.last(), '"')[3]));
    }
}

/// A library line names its directory whole: the line
/// `<pre>\t\t"path"\t\t"<root>"<post>` names the library `root`, spaces
/// and all, whenever neither `pre` nor `root` holds a double quote.
pub proof fn lemma_library_line(pre: Seq<char>, root: Seq<char>, post: Seq<char>)
    requires
        !pre.contains('"'),
        !root.contains('"'),
    ensures
        library_roots(
            seq![pre + "\t\t\"path\"\t\t"@ + seq!['"'] + root + seq!['"'] + post],
        ) == seq![root],
{
    reveal_strlit("\t\t\"path\"\t\t");
    let pat = "\t\t\"path\"\t\t"@;
    let l = pre + pat + seq!['"'] + root + seq!['"'] + post;
    let a0 = pre + seq!['\t', '\t'];
    let a1 = seq!['p', 'a', 't', 'h'];
    let a2 = seq!['\t', '\t'];
    assert(!a0.contains('"')) by {
        if a0.contains('"') {
            let i = choose|i: int| 0 <= i < a0.len() && a0[i] == '"';
            assert(pre[i] == '"');
        }
    }
    assert(!a1.contains('"')) by {
        if a1.contains('"') {
            let i = choose|i: int| 0 <= i < a1.len() && a1[i] == '"';
        }
    }
    assert(!a2.contains('"')) by {
        if a2.contains('"') {
            let i = choose|i: int| 0 <= i < a2.len() && a2[i] == '"';
        }
    }
    let t3 = root.push('"') + post;
    let t2 = a2.push('"') + t3;
    let t1 = a1.push('"') + t2;
    assert(l =~= a0.push('"') + t1);
    crate::text::lemma_split_first(root, '"', post);
    crate::text::lemma_split_first(a2, '"', t3);
    crate::text::lemma_split_first(a1, '"', t2);
    crate::text::lemma_split_first(a0, '"', t1);
    let f = split_on(l, '"');
    assert(f =~= seq![a0, a1, a2, root] + split_on(post, '"'));
    assert(f[3] == root);
    assert(contains_sub(l, pat)) by {
        assert(l.subrange(pre.len() as int, pre.len() + pat.len() as int) =~= pat);
    }
    assert(is_library_line(l));
    assert(seq![l].drop_last() =~= Seq::<Seq<char>>::empty());
    assert(seq![l].last() == l);
    assert(library_roots(seq![l].drop_last()) == Seq::<Seq<char>>::empty());
    assert(Seq::<Seq<char>>::empty().push(root) =~= seq![root]);
    assert(library_roots(seq![l]) == seq![root]);
}

} // verus!
