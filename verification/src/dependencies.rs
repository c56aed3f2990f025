//! Where the mod loader's downloads live, and the decisions around finding
//! the game.

use vstd::prelude::*;
use crate::platform::TargetOs;
use crate::text::{parse_usize, parsed_usize, trim_whitespace, trimmed};

verus! {

/// Releases of the Lua part of the mod loader, by tag.
pub const BALAMOD_LUA_RELEASES: &'static str = "https://github.com/balamod/balamod_lua/releases/download/";

/// The latest release of the Lua part of the mod loader.
pub const BALAMOD_LUA_LATEST: &'static str = "https://github.com/balamod/balamod_lua/releases/latest/download/";

/// Releases of the native library, by tag.
pub const BALALIB_RELEASES: &'static str = "https://github.com/balamod/balalib/releases/download/";

/// The latest release of the native library.
pub const BALALIB_LATEST: &'static str = "https://github.com/balamod/balalib/releases/latest/download/";

/// The Lua patch that the game loads at start.
pub const MAIN_PATCH: &'static str = "https://raw.githubusercontent.com/balamod/balamod_lua/main/main.patch.lua";

/// The archive of the mod loader for `os`; on Linux it depends on whether the
/// game runs natively or through Proton.
pub open spec fn tar_file_name(linux_native: bool, os: TargetOs) -> Seq<char> {
    match os {
        TargetOs::MacOs => "balamod-macos.tar.gz"@,
        TargetOs::Windows => "balamod-windows.tar.gz"@,
        TargetOs::Linux => if linux_native {
            "balamod-linux-native.tar.gz"@
        } else {
            "balamod-linux-proton.tar.gz"@
        },
    }
}

/// The archive of the mod loader for `os`.
pub fn get_tar_file_name(linux_native: bool, os: TargetOs) -> (r: &'static str)
    ensures
        r@ == tar_file_name(linux_native, os),
{
    match os {
        TargetOs::MacOs => "balamod-macos.tar.gz",
        TargetOs::Windows => "balamod-windows.tar.gz",
        TargetOs::Linux => if linux_native {
            "balamod-linux-native.tar.gz"
        } else {
            "balamod-linux-proton.tar.gz"
        },
    }
}

/// The native library's file name for `os`; Proton runs the Windows build.
pub open spec fn balalib_name(linux_native: bool, os: TargetOs) -> Seq<char> {
    match os {
        TargetOs::MacOs => "balalib.dylib"@,
        TargetOs::Windows => "balalib.dll"@,
        TargetOs::Linux => if linux_native {
            "balalib.so"@
        } else {
            "balalib.dll"@
        },
    }
}

/// The native library's file name for `os`.
pub fn get_balalib_name(linux_native: bool, os: TargetOs) -> (r: &'static str)
    ensures
        r@ == balalib_name(linux_native, os),
{
    match os {
        TargetOs::MacOs => "balalib.dylib",
        TargetOs::Windows => "balalib.dll",
        TargetOs::Linux => if linux_native {
            "balalib.so"
        } else {
            "balalib.dll"
        },
    }
}

/// `base`, then the tag and a slash when a tag is given, then `file`.
pub open spec fn release_url(
    releases: Seq<char>,
    latest: Seq<char>,
    tag: Option<Seq<char>>,
    file: Seq<char>,
) -> Seq<char> {
    match tag {
        Some(t) => releases + t + "/"@ + file,
        None => latest + file,
    }
}

fn concat_url(releases: &str, latest: &str, tag: Option<&str>, file: &str) -> (r: String)
    ensures
        r@ == release_url(releases@, latest@, crate::parser::opt_chars(tag), file@),
{
    match tag {
        Some(t) => {
            let mut s = String::from_str(releases);
            s.append(t);
            s.append("/");
            s.append(file);
            s
        },
        None => {
            let mut s = String::from_str(latest);
            s.append(file);
            s
        },
    }
}

/// Where the mod loader's archive is downloaded from: the release `tag`, or
/// the latest release.
pub fn get_tar_url(tag: Option<&str>, linux_native: bool, os: TargetOs) -> (r: String)
    ensures
        r@ == release_url(
            BALAMOD_LUA_RELEASES@,
            BALAMOD_LUA_LATEST@,
            crate::parser::opt_chars(tag),
            tar_file_name(linux_native, os),
        ),
{
    concat_url(BALAMOD_LUA_RELEASES, BALAMOD_LUA_LATEST, tag, get_tar_file_name(linux_native, os))
}

/// Where the native library is downloaded from: the release `tag`, or the
/// latest release. The file asked for is the mod loader's archive name.
pub fn get_balalib_url(tag: Option<&str>, linux_native: bool, os: TargetOs) -> (r: String)
    ensures
        r@ == release_url(
            BALALIB_RELEASES@,
            BALALIB_LATEST@,
            crate::parser::opt_chars(tag),
            tar_file_name(linux_native, os),
        ),
{
    concat_url(BALALIB_RELEASES, BALALIB_LATEST, tag, get_tar_file_name(linux_native, os))
}

/// The address probed to learn whether release `ver` exists: the releases
/// location, the version and the archive name, with nothing between them.
pub fn balamod_version_url(ver: &str, linux_native: bool, os: TargetOs) -> (r: String)
    ensures
        r@ == BALAMOD_LUA_RELEASES@ + ver@ + tar_file_name(linux_native, os),
{
    let mut s = String::from_str(BALAMOD_LUA_RELEASES);
    s.append(ver);
    s.append(get_tar_file_name(linux_native, os));
    s
}

/// Whether a probe answered with HTTP status `status` means that the release
/// exists: every answer but "not found" does.
pub fn balamod_version_exists(status: u16) -> (r: bool)
    ensures
        r == (status != 404),
{
    status != 404
}

/// What to do about the game's location: the path given on the command
/// line, the only installation found, or none found, or ask among several.
pub enum PathChoice<'a> {
    Given(&'a str),
    Single(&'a String),
    NotFound,
    Ask,
}

/// Decides which installation of the game to work on: a path given with `-b`
/// wins; otherwise a single installation found becomes the default, none
/// found is an error, and several mean that the user is asked to choose.
pub fn get_balatro_path<'a>(balatro_path: Option<&'a str>, balatros: &'a Vec<String>) -> (r: PathChoice<'a>)
    ensures
        match balatro_path {
            Some(p) => r == PathChoice::Given(p),
            None => if balatros.len() == 0 {
                r == PathChoice::<'a>::NotFound
            } else if balatros.len() == 1 {
                r == PathChoice::Single(&balatros@[0])
            } else {
                r == PathChoice::<'a>::Ask
            },
        },
{
    match balatro_path {
        Some(path) => PathChoice::Given(path),
        None => {
            if balatros.len() == 0 {
                PathChoice::NotFound
            } else if balatros.len() == 1 {
                PathChoice::Single(&balatros[0])
            } else {
                PathChoice::Ask
            }
        },
    }
}

/// Why an answer to the choice among installations was refused.
#[derive(Clone, Copy, PartialEq, Eq, Structural, Debug)]
pub enum PickError {
    /// The answer is not a number.
    NotANumber,
    /// The number is 0 or larger than the number of installations.
    OutOfRange,
}

/// The answer to the choice among installations, as the user's line reads:
/// a number from 1 to the number of installations, around white space.
pub open spec fn picked(input: Seq<char>, count: nat) -> Result<int, PickError> {
    match parsed_usize(trimmed(input)) {
        None => Err(PickError::NotANumber),
        Some(n) => if n > count || n == 0 {
            Err(PickError::OutOfRange)
        } else {
            Ok(n - 1)
        },
    }
}

/// The installation that the user's answer `input` picks among `balatros`,
/// numbered from 1.
pub fn multiple_balatros_found<'a>(input: &str, balatros: &'a Vec<String>) -> (r: Result<&'a String, PickError>)
    ensures
        match picked(input@, balatros.len() as nat) {
            Ok(i) => r matches Ok(p) && *p == balatros@[i],
            Err(e) => r == Err::<&'a String, PickError>(e),
        },
{
    match parse_usize(trim_whitespace(input)) {
        None => Err(PickError::NotANumber),
        Some(n) => {
            if n > balatros.len() || n == 0 {
                Err(PickError::OutOfRange)
            } else {
                Ok(&balatros[n - 1])
            }
        },
    }
}

/// What is checked before a given release is installed: how the release is
/// announced, and the address probed to learn whether it exists.
pub struct VersionProbe {
    pub label: String,
    pub url: String,
}

/// Before installing: a release given by tag is announced as `v<tag>` and
/// probed at [`balamod_version_url`]; the latest release needs no check.
pub fn check_version(version: Option<&str>, linux_native: bool, os: TargetOs) -> (r: Option<VersionProbe>)
    ensures
        match version {
            None => r is None,
            Some(v) => r matches Some(p) && p.label@ == "v"@ + v@ && p.url@ == BALAMOD_LUA_RELEASES@
                + v@ + tar_file_name(linux_native, os),
        },
{
    match version {
        None => None,
        Some(v) => {
            let mut label = String::from_str("v");
            label.append(v);
            Some(VersionProbe { label, url: balamod_version_url(v, linux_native, os) })
        },
    }
}

} // verus!
