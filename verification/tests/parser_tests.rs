use balamod::parser::{all_values_present, is_parametric, parse_args, split_args, Args};

fn strings(v: &[&str]) -> Vec<String> {
    v.iter().map(|s| s.to_string()).collect()
}

fn grouped(args: &Vec<String>) -> Vec<Vec<String>> {
    split_args(args)
        .into_iter()
        .map(|g| g.into_iter().cloned().collect())
        .collect()
}

#[test]
fn split_args_groups_values_with_their_options() {
    let args = strings(&["x", "-i", "Balatro.lua", "c", "--output", "DAT1.jkr"]);
    assert_eq!(
        grouped(&args),
        vec![
            vec!["x".to_string()],
            vec!["-i".to_string(), "Balatro.lua".to_string()],
            vec!["c".to_string()],
            vec!["--output".to_string(), "DAT1.jkr".to_string()],
        ]
    );
}

#[test]
fn split_args_value_may_look_like_an_option() {
    let args = strings(&["-b", "-v", "a"]);
    assert_eq!(
        grouped(&args),
        vec![vec!["-b".to_string(), "-v".to_string()], vec!["a".to_string()]]
    );
}

#[test]
fn split_args_empty() {
    let args: Vec<String> = Vec::new();
    assert!(grouped(&args).is_empty());
}

#[test]
fn split_args_flattens_back() {
    let args = strings(&["a", "--linux-native", "-v", "1.0", "u", "-o"]);
    assert!(!all_values_present(&args));
    let args = strings(&["a", "--linux-native", "-v", "1.0", "u", "-o", "out"]);
    assert!(all_values_present(&args));
    let flat: Vec<String> = grouped(&args).into_iter().flatten().collect();
    assert_eq!(flat, args);
}

#[test]
fn values_missing_is_detected() {
    assert!(!all_values_present(&strings(&["x", "-i"])));
    assert!(!all_values_present(&strings(&["--balatro-path"])));
    assert!(all_values_present(&strings(&["-i", "-o"])));
    assert!(all_values_present(&strings(&["x", "y"])));
}

#[test]
fn parametric_options() {
    for o in ["-b", "--balatro-path", "-v", "--balatro-version", "-i", "--input", "-o", "--output"] {
        assert!(is_parametric(o));
    }
    for o in ["a", "x", "--help", "-x", "", "--inputs", "-B"] {
        assert!(!is_parametric(o));
    }
}

#[test]
fn parse_args_sets_flags_and_values() {
    let args = strings(&["x", "c", "-i", "in.lua", "-o", "out.jkr", "--linux-native", "-b", "/games/B"]);
    let parsed = parse_args(split_args(&args));
    assert!(parsed.inject && parsed.compress && parsed.linux_native);
    assert!(!parsed.auto && !parsed.decompile && !parsed.uninstall && !parsed.help && !parsed.version);
    assert_eq!(parsed.input, Some("in.lua"));
    assert_eq!(parsed.output, Some("out.jkr"));
    assert_eq!(parsed.balatro_path, Some("/games/B"));
    assert_eq!(parsed.balatro_version, None);
}

#[test]
fn parse_args_long_forms_and_unknowns() {
    let args = strings(&["auto", "decompile", "uninstall", "compress", "inject", "--help", "--version", "what", "--balatro-version", "0.9"]);
    let parsed = parse_args(split_args(&args));
    assert!(parsed.auto && parsed.decompile && parsed.uninstall && parsed.compress && parsed.inject);
    assert!(parsed.help && parsed.version && !parsed.linux_native);
    assert_eq!(parsed.balatro_version, Some("0.9"));
}

#[test]
fn parse_args_last_value_wins() {
    let args = strings(&["-i", "first", "--input", "second"]);
    let parsed = parse_args(split_args(&args));
    assert_eq!(parsed.input, Some("second"));
}

#[test]
fn default_args_are_empty() {
    let d = Args::default();
    assert!(!d.help && !d.version && !d.inject && !d.compress && !d.auto && !d.decompile && !d.uninstall && !d.linux_native);
    assert!(d.balatro_path.is_none() && d.balatro_version.is_none() && d.input.is_none() && d.output.is_none());
}

#[test]
fn parse_args_group_without_value_clears() {
    let a = "-b".to_string();
    let p = "path".to_string();
    let parsed = parse_args(vec![vec![&a, &p], vec![&a]]);
    assert_eq!(parsed.balatro_path, None);
}

#[test]
fn appending_groups_only_turns_flags_on() {
    let a = strings(&["x", "-i", "in.lua", "--linux-native"]);
    let mut ab = a.clone();
    ab.extend(strings(&["c", "-o", "out.jkr"]));
    let r1 = parse_args(split_args(&a));
    let r2 = parse_args(split_args(&ab));
    assert!(r1.inject && r2.inject && r1.linux_native && r2.linux_native);
    assert!(!r1.compress && r2.compress);
    assert_eq!(r2.input, Some("in.lua"));
    assert_eq!(r2.output, Some("out.jkr"));

    let mut ac = a.clone();
    ac.extend(strings(&["what", "--nothing"]));
    let r3 = parse_args(split_args(&ac));
    assert!(r3.inject && r3.linux_native && !r3.compress && !r3.auto && !r3.help);
    assert_eq!(r3.input, r1.input);
    assert_eq!(r3.output, r1.output);
    assert_eq!(r3.balatro_path, r1.balatro_path);
    assert_eq!(r3.balatro_version, r1.balatro_version);
}
