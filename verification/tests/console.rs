use meowdict::console::{
    argument_spliter, tokenize_line, CommandError, MeowdictConsole, OpenccConvertMode, QueryMode,
};

fn session() -> MeowdictConsole {
    MeowdictConsole { input_s2t: false, result_t2s: false, no_color_output: false }
}

fn toks(words: &[&str]) -> Vec<String> {
    words.iter().map(|w| w.to_string()).collect()
}

#[test]
fn invalid_argument_leaves_session_unchanged() {
    let mut console = session();
    let r = console.run_command(toks(&["-x"]));
    assert!(matches!(r, Err(CommandError::InvalidArgument(ref t)) if t == "-x"));
    assert!(!console.input_s2t);
    assert!(!console.result_t2s);
}

#[test]
fn set_mode_persists_across_commands() {
    let mut console = session();
    let r = console.run_command(toks(&["--set-mode-input-s2t"]));
    let plan = r.unwrap();
    assert!(plan.input_s2t);
    assert!(console.input_s2t);
    let plan = console.run_command(toks(&["hello"])).unwrap();
    assert_eq!(plan.words, vec!["hello".to_string()]);
    assert!(plan.input_s2t);
    assert_eq!(plan.mode, QueryMode::Dict);
}

#[test]
fn command_flags_do_not_persist() {
    let mut console = session();
    let plan = console.run_command(toks(&["-i", "-r", "word"])).unwrap();
    assert!(plan.input_s2t);
    assert!(plan.result_t2s);
    assert!(!console.input_s2t);
    assert!(!console.result_t2s);
    let plan = console.run_command(toks(&["word"])).unwrap();
    assert!(!plan.input_s2t);
    assert!(!plan.result_t2s);
}

#[test]
fn long_and_short_forms_agree() {
    let mut console = session();
    let long = console.run_command(toks(&["--input-s2t", "--result-t2s", "w"])).unwrap();
    let short = console.run_command(toks(&["-i", "-r", "w"])).unwrap();
    assert_eq!(long.input_s2t, short.input_s2t);
    assert_eq!(long.result_t2s, short.result_t2s);
    assert_eq!(long.mode, short.mode);
}

#[test]
fn translation_mode_wins_over_jyutping() {
    let mut console = session();
    let plan = console.run_command(toks(&["-j", "-t", "w"])).unwrap();
    assert_eq!(plan.mode, QueryMode::Translation);
    let plan = console.run_command(toks(&["--jyutping", "w"])).unwrap();
    assert_eq!(plan.mode, QueryMode::Jyutping);
}

#[test]
fn unset_mode_all_clears_both_toggles() {
    let mut console = session();
    console.run_command(toks(&["--set-mode-input-s2t"])).unwrap();
    console.run_command(toks(&["--set-mode-result-t2s"])).unwrap();
    assert!(console.input_s2t && console.result_t2s);
    console.run_command(toks(&["--unset-mode-all"])).unwrap();
    assert!(!console.input_s2t && !console.result_t2s);
}

#[test]
fn flags_before_the_invalid_one_take_effect() {
    let mut console = session();
    let r = console.run_command(toks(&["--set-mode-input-s2t", "-x", "--set-mode-result-t2s"]));
    assert!(matches!(r, Err(CommandError::InvalidArgument(ref t)) if t == "-x"));
    assert!(console.input_s2t);
    assert!(!console.result_t2s);
}

#[test]
fn set_console_mode_toggles_one_side() {
    let mut console = session();
    console.set_console_mode(&OpenccConvertMode::S2T, true);
    assert!(console.input_s2t && !console.result_t2s);
    console.set_console_mode(&OpenccConvertMode::T2S, true);
    assert!(console.input_s2t && console.result_t2s);
    console.set_console_mode(&OpenccConvertMode::S2T, false);
    assert!(!console.input_s2t && console.result_t2s);
}

#[test]
fn splitter_partitions_by_leading_dash() {
    let (flags, words) = argument_spliter(vec!["-i", "cat", "--translation", "dog"]);
    assert_eq!(flags, vec!["-i", "--translation"]);
    assert_eq!(words, vec!["cat", "dog"]);
}

#[test]
fn splitter_keeps_empty_tokens_as_words() {
    let (flags, words) = argument_spliter(vec!["", "-r"]);
    assert_eq!(flags, vec!["-r"]);
    assert_eq!(words, vec![""]);
}

#[test]
fn tokenize_drops_blank_runs() {
    assert_eq!(tokenize_line("  hello   world "), vec!["hello", "world"]);
    assert_eq!(tokenize_line(""), Vec::<String>::new());
    assert_eq!(tokenize_line("   "), Vec::<String>::new());
    assert_eq!(tokenize_line("one"), vec!["one"]);
}

#[test]
fn words_keep_their_order() {
    let mut console = session();
    let plan = console.run_command(toks(&["b", "-t", "a", "c"])).unwrap();
    assert_eq!(plan.words, vec!["b".to_string(), "a".to_string(), "c".to_string()]);
}
