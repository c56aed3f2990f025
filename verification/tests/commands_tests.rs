use balamod::commands::{decide_command, decompile_dir, plan_injection, strip_suffix_if_exists, Command, ModeConflict};
use balamod::parser::Args;

#[test]
fn injection_defaults() {
    let p = plan_injection(None, None, false);
    assert_eq!(p.input, "Balatro.lua");
    assert_eq!(p.output, "DAT1.jkr");
    assert!(p.compression_output.is_none() && p.need_cleanup.is_none());
}

#[test]
fn compression_output_name() {
    let p = plan_injection(Some("Balatro.lua"), Some("DAT1.jkr"), true);
    assert_eq!(p.compression_output.as_deref(), Some("DAT1.jkr.jkr"));
    assert_eq!(p.need_cleanup.as_deref(), Some("DAT1.jkr.jkr"));
    let p = plan_injection(Some("in"), Some(".luax"), true);
    assert_eq!(p.compression_output.as_deref(), Some("x.jkr"));
    let p = plan_injection(Some("X.JKR"), Some(".lua.jkrx"), true);
    assert_eq!(p.compression_output.as_deref(), Some("x.jkr"));
    assert!(p.need_cleanup.is_none());
}

#[test]
fn strips_at_the_front() {
    assert_eq!(strip_suffix_if_exists(".luafoo", ".lua"), "foo");
    assert_eq!(strip_suffix_if_exists("foo.lua", ".lua"), "foo.lua");
    assert_eq!(strip_suffix_if_exists("", ".lua"), "");
}

#[test]
fn commands_and_conflicts() {
    let mut a = Args::default();
    assert_eq!(decide_command(&a), Command::Run);
    a.inject = true;
    a.auto = true;
    a.decompile = true;
    assert_eq!(decide_command(&a), Command::Conflict(ModeConflict::InjectAuto));
    a.auto = false;
    assert_eq!(decide_command(&a), Command::Conflict(ModeConflict::InjectDecompile));
    a.inject = false;
    a.auto = true;
    assert_eq!(decide_command(&a), Command::Conflict(ModeConflict::AutoDecompile));
    a.version = true;
    assert_eq!(decide_command(&a), Command::Version);
    a.help = true;
    assert_eq!(decide_command(&a), Command::Help);
}

#[test]
fn decompile_folder() {
    assert_eq!(decompile_dir(None), "decompiled");
    assert_eq!(decompile_dir(Some("out")), "out");
}
