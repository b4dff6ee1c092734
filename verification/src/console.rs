//! The console command/mode state machine.
//!
//! A session owns two persistent conversion toggles.  Each input line is
//! split into flags and search words; the flags are consumed left to right,
//! toggling session or per-command state, and the first unrecognized flag
//! aborts the command.  The survivors are folded into a `CommandPlan`: the
//! words, the effective conversion switches and the query mode, for the
//! surrounding program to carry out.

use vstd::prelude::*;

verus! {

/// A script-conversion direction: simplified to traditional, or the
/// reverse.
#[derive(Debug)]
pub enum OpenccConvertMode {
    S2T,
    T2S,
}

/// The query mode one command dispatches to.
#[derive(Debug, PartialEq, Eq, Structural)]
pub enum QueryMode {
    Dict,
    Translation,
    Jyutping,
}

/// What one command asks the surrounding program to do: look the words up
/// in this mode, converting input or results as the switches say.
pub struct CommandPlan {
    pub words: Vec<String>,
    pub input_s2t: bool,
    pub result_t2s: bool,
    pub mode: QueryMode,
}

/// An argument error: the command is abandoned, the session survives.
#[derive(Debug)]
pub enum CommandError {
    InvalidArgument(String),
}

/// The console session.  The two toggles are the only state that outlives
/// a command; they change only through explicit set/unset flags.
pub struct MeowdictConsole {
    pub input_s2t: bool,
    pub result_t2s: bool,
    pub no_color_output: bool,
}

/// The full flag state while one command's flags are consumed: the two
/// persistent session toggles and the four per-command switches.
pub ghost struct CmdState {
    pub session_input_s2t: bool,
    pub session_result_t2s: bool,
    pub command_input_s2t: bool,
    pub command_result_t2s: bool,
    pub translation_mode: bool,
    pub jyutping_mode: bool,
}

/// A token is a flag when it begins with a dash.
pub open spec fn is_flag_token(t: Seq<char>) -> bool {
    t.len() > 0 && t[0] == '-'
}

/// The flag tokens, in their relative order.
pub open spec fn flags_of(tokens: Seq<Seq<char>>) -> Seq<Seq<char>>
    decreases tokens.len(),
{
    if tokens.len() == 0 {
        Seq::empty()
    } else {
        let rest = flags_of(tokens.drop_last());
        if is_flag_token(tokens.last()) {
            rest.push(tokens.last())
        } else {
            rest
        }
    }
}

/// The word tokens, in their relative order.
pub open spec fn words_of(tokens: Seq<Seq<char>>) -> Seq<Seq<char>>
    decreases tokens.len(),
{
    if tokens.len() == 0 {
        Seq::empty()
    } else {
        let rest = words_of(tokens.drop_last());
        if is_flag_token(tokens.last()) {
            rest
        } else {
            rest.push(tokens.last())
        }
    }
}

/// One recognized flag's effect on the state; `None` for an unrecognized
/// flag.
pub open spec fn apply_flag(st: CmdState, f: Seq<char>) -> Option<CmdState> {
    if f == "--input-s2t"@ || f == "-i"@ {
        Some(CmdState { command_input_s2t: true, ..st })
    } else if f == "--result-t2s"@ || f == "-r"@ {
        Some(CmdState { command_result_t2s: true, ..st })
    } else if f == "--translation"@ || f == "-t"@ {
        Some(CmdState { translation_mode: true, ..st })
    } else if f == "--jyutping"@ || f == "-j"@ {
        Some(CmdState { jyutping_mode: true, ..st })
    } else if f == "--set-mode-input-s2t"@ {
        Some(CmdState { session_input_s2t: true, ..st })
    } else if f == "--set-mode-result-t2s"@ {
        Some(CmdState { session_result_t2s: true, ..st })
    } else if f == "--unset-mode-input-s2t"@ {
        Some(CmdState { session_input_s2t: false, ..st })
    } else if f == "--unset-mode-result-t2s"@ {
        Some(CmdState { session_result_t2s: false, ..st })
    } else if f == "--unset-mode-all"@ {
        Some(CmdState { session_input_s2t: false, session_result_t2s: false, ..st })
    } else {
        None
    }
}

/// The flags consumed left to right: the state reached, and the first
/// unrecognized flag if one stops the command.  Flags before it take
/// effect; the rest do not.
pub open spec fn run_flags(st: CmdState, flags: Seq<Seq<char>>) -> (CmdState, Option<Seq<char>>)
    decreases flags.len(),
{
    if flags.len() == 0 {
        (st, None)
    } else {
        match apply_flag(st, flags[0]) {
            Some(st2) => run_flags(st2, flags.drop_first()),
            None => (st, Some(flags[0])),
        }
    }
}

/// The flags that touch the persistent session toggles.
pub open spec fn is_mode_flag(f: Seq<char>) -> bool {
    f == "--set-mode-input-s2t"@ || f == "--set-mode-result-t2s"@ || f
        == "--unset-mode-input-s2t"@ || f == "--unset-mode-result-t2s"@ || f
        == "--unset-mode-all"@
}

/// Law: the session toggles change only through the explicit set/unset
/// mode flags.  A command whose flags include none of them leaves both
/// toggles exactly as they were, whatever else it does.
pub proof fn lemma_session_moves_only_by_mode_flags(st: CmdState, flags: Seq<Seq<char>>)
    requires
        forall|i: int| 0 <= i < flags.len() ==> !is_mode_flag(#[trigger] flags[i]),
    ensures
        run_flags(st, flags).0.session_input_s2t == st.session_input_s2t,
        run_flags(st, flags).0.session_result_t2s == st.session_result_t2s,
    decreases flags.len(),
{
    if flags.len() > 0 {
        match apply_flag(st, flags[0]) {
            Some(st2) => {
                assert(!is_mode_flag(flags[0]));
                assert(st2.session_input_s2t == st.session_input_s2t);
                assert(st2.session_result_t2s == st.session_result_t2s);
                assert(forall|i: int|
                    0 <= i < flags.drop_first().len() ==> !is_mode_flag(
                        #[trigger] flags.drop_first()[i],
                    ));
                lemma_session_moves_only_by_mode_flags(st2, flags.drop_first());
            },
            None => {},
        }
    }
}

proof fn lemma_run_flags_push(st: CmdState, fl: Seq<Seq<char>>, f: Seq<char>)
    requires
        run_flags(st, fl).1 is None,
    ensures
        run_flags(st, fl.push(f)) == match apply_flag(run_flags(st, fl).0, f) {
            Some(st2) => (st2, None::<Seq<char>>),
            None => (run_flags(st, fl).0, Some(f)),
        },
    decreases fl.len(),
{
    if fl.len() == 0 {
        assert(fl.push(f)[0] == f);
        assert(fl.push(f).drop_first() =~= Seq::<Seq<char>>::empty());
        match apply_flag(st, f) {
            Some(st2) => {
                assert(run_flags(st2, Seq::<Seq<char>>::empty()) == (st2, None::<Seq<char>>));
                assert(run_flags(st, fl.push(f)) == (st2, None::<Seq<char>>));
            },
            None => {
                assert(run_flags(st, fl.push(f)) == (st, Some(f)));
            },
        }
    } else {
        assert(fl.push(f)[0] == fl[0]);
        assert(fl.push(f).drop_first() =~= fl.drop_first().push(f));
        match apply_flag(st, fl[0]) {
            Some(st2) => {
                assert(run_flags(st, fl) == run_flags(st2, fl.drop_first()));
                lemma_run_flags_push(st2, fl.drop_first(), f);
                assert(run_flags(st, fl.push(f)) == run_flags(st2, fl.drop_first().push(f)));
            },
            None => {
                assert(run_flags(st, fl).1 == Some(fl[0]));
            },
        }
    }
}

proof fn lemma_run_flags_stuck(st: CmdState, fl: Seq<Seq<char>>, rest: Seq<Seq<char>>)
    requires
        run_flags(st, fl).1 is Some,
    ensures
        run_flags(st, fl + rest) == run_flags(st, fl),
    decreases fl.len(),
{
    assert(fl.len() > 0);
    assert((fl + rest)[0] == fl[0]);
    match apply_flag(st, fl[0]) {
        Some(st2) => {
            assert((fl + rest).drop_first() =~= fl.drop_first() + rest);
            lemma_run_flags_stuck(st2, fl.drop_first(), rest);
        },
        None => {
            assert((fl + rest).len() > 0);
        },
    }
}

proof fn lemma_flags_of_add(a: Seq<Seq<char>>, b: Seq<Seq<char>>)
    ensures
        flags_of(a + b) == flags_of(a) + flags_of(b),
    decreases b.len(),
{
    if b.len() == 0 {
        assert(a + b =~= a);
        assert(flags_of(a) + flags_of(b) =~= flags_of(a));
    } else {
        assert((a + b).drop_last() =~= a + b.drop_last());
        assert((a + b).last() == b.last());
        lemma_flags_of_add(a, b.drop_last());
        if is_flag_token(b.last()) {
            assert((flags_of(a) + flags_of(b.drop_last())).push(b.last()) =~= flags_of(a)
                + flags_of(b.drop_last()).push(b.last()));
        }
    }
}

impl MeowdictConsole {
    /// Turns one persistent session toggle on or off: the input-conversion
    /// toggle for the simplified-to-traditional direction, the
    /// result-conversion toggle for the reverse.
    pub fn set_console_mode(&mut self, t: &OpenccConvertMode, enable: bool)
        ensures
            final(self).input_s2t == (if *t is S2T {
                enable
            } else {
                old(self).input_s2t
            }),
            final(self).result_t2s == (if *t is T2S {
                enable
            } else {
                old(self).result_t2s
            }),
            final(self).no_color_output == old(self).no_color_output,
    {
        match t {
            OpenccConvertMode::S2T => {
                self.input_s2t = enable;
            },
            OpenccConvertMode::T2S => {
                self.result_t2s = enable;
            },
        }
    }
}

/// The space-separated tokens of a line, in order, empty ones dropped.
pub open spec fn tokens_of(s: Seq<char>) -> Seq<Seq<char>>
    decreases s.len(),
{
    if s.len() == 0 {
        Seq::empty()
    } else if s.last() == ' ' {
        tokens_of(s.drop_last())
    } else if s.len() >= 2 && s[s.len() - 2] != ' ' {
        let rest = tokens_of(s.drop_last());
        rest.update(rest.len() - 1, rest.last().push(s.last()))
    } else {
        tokens_of(s.drop_last()).push(seq![s.last()])
    }
}

/// Cuts one input line into its space-separated tokens.
pub fn tokenize_line(line: &str) -> (r: Vec<String>)
    ensures
        r.deep_view() == tokens_of(line@),
{
    let n = line.unicode_len();
    let mut r: Vec<String> = Vec::new();
    let mut start: usize = 0;
    let mut in_run = false;
    let mut i: usize = 0;
    proof {
        assert(line@.take(0) =~= Seq::<char>::empty());
        assert(r.deep_view() =~= tokens_of(line@.take(0)));
    }
    while i < n
        invariant
            0 <= i <= n,
            n == line@.len(),
            !in_run ==> r.deep_view() == tokens_of(line@.take(i as int)),
            !in_run ==> (i == 0 || line@[i - 1] == ' '),
            in_run ==> 0 <= start < i,
            in_run ==> (start == 0 || line@[start - 1] == ' '),
            in_run ==> forall|q: int| start <= q < i ==> line@[q] != ' ',
            in_run ==> tokens_of(line@.take(i as int)) == r.deep_view().push(
                line@.subrange(start as int, i as int),
            ),
        decreases n - i,
    {
        proof {
            assert(line@.take(i + 1).drop_last() =~= line@.take(i as int));
            assert(line@.take(i + 1).last() == line@[i as int]);
        }
        let c = line.get_char(i);
        if c == ' ' {
            if in_run {
                let ghost before = r.deep_view();
                r.push(line.substring_char(start, i).to_owned());
                proof {
                    assert(r.deep_view() =~= before.push(
                        line@.subrange(start as int, i as int),
                    ));
                }
                in_run = false;
            }
        } else {
            if in_run {
                proof {
                    let t = line@.take(i + 1);
                    assert(t.len() >= 2 && t[t.len() - 2] == line@[i - 1]);
                    assert(line@[i - 1] != ' ');
                    let rest = tokens_of(line@.take(i as int));
                    assert(rest == r.deep_view().push(line@.subrange(start as int, i as int)));
                    assert(rest.len() >= 1);
                    assert(rest.last() == line@.subrange(start as int, i as int));
                    assert(line@.subrange(start as int, i as int).push(line@[i as int])
                        =~= line@.subrange(start as int, i + 1));
                    assert(rest.update(rest.len() - 1, rest.last().push(line@[i as int]))
                        =~= r.deep_view().push(line@.subrange(start as int, i + 1)));
                }
            } else {
                start = i;
                in_run = true;
                proof {
                    assert(seq![line@[i as int]] =~= line@.subrange(i as int, i + 1));
                }
            }
        }
        i = i + 1;
    }
    if in_run {
        let ghost before = r.deep_view();
        r.push(line.substring_char(start, n).to_owned());
        proof {
            assert(r.deep_view() =~= before.push(line@.subrange(start as int, n as int)));
        }
    }
    proof {
        assert(line@.take(n as int) =~= line@);
    }
    r
}

/// True when the token reads exactly as the given flag.
fn is_tok(t: &String, s: &str) -> (r: bool)
    ensures
        r == (t@ == s@),
{
    let o = s.to_owned();
    *t == o
}

/// Splits one command's tokens into flags (a leading dash) and search
/// words, each side keeping its relative order.
pub fn argument_spliter<'a>(argument: Vec<&'a str>) -> (r: (Vec<&'a str>, Vec<&'a str>))
    ensures
        r.0.deep_view() == flags_of(argument.deep_view()),
        r.1.deep_view() == words_of(argument.deep_view()),
{
    let mut args: Vec<&'a str> = Vec::new();
    let mut words: Vec<&'a str> = Vec::new();
    let n = argument.len();
    let mut i: usize = 0;
    proof {
        assert(argument.deep_view().take(0) =~= Seq::<Seq<char>>::empty());
        assert(args.deep_view() =~= flags_of(argument.deep_view().take(0)));
        assert(words.deep_view() =~= words_of(argument.deep_view().take(0)));
    }
    while i < n
        invariant
            0 <= i <= n,
            n == argument@.len(),
            args.deep_view() == flags_of(argument.deep_view().take(i as int)),
            words.deep_view() == words_of(argument.deep_view().take(i as int)),
        decreases n - i,
    {
        let tok = argument[i];
        proof {
            assert(argument.deep_view().take(i + 1).drop_last() =~= argument.deep_view().take(
                i as int,
            ));
            assert(argument.deep_view().take(i + 1).last() == tok@);
        }
        let flagged = tok.unicode_len() > 0 && tok.get_char(0) == '-';
        if flagged {
            let ghost before = args.deep_view();
            args.push(tok);
            proof {
                assert(args.deep_view() =~= before.push(tok@));
            }
        } else {
            let ghost before = words.deep_view();
            words.push(tok);
            proof {
                assert(words.deep_view() =~= before.push(tok@));
            }
        }
        i = i + 1;
    }
    proof {
        assert(argument.deep_view().take(n as int) =~= argument.deep_view());
    }
    (args, words)
}

impl MeowdictConsole {
    /// Resolves one command.  The tokens split into flags and words; the
    /// flags are consumed left to right, toggling session or per-command
    /// state, and the first unrecognized one aborts the command with an
    /// invalid-argument error, later flags left untouched.  On success the
    /// plan carries the words, the effective conversion switches (session
    /// toggle or per-command flag) and the query mode, translation before
    /// jyutping before the dictionary default.
    pub fn run_command(&mut self, tokens: Vec<String>) -> (r: Result<CommandPlan, CommandError>)
        ensures
            ({
                let init = CmdState {
                    session_input_s2t: old(self).input_s2t,
                    session_result_t2s: old(self).result_t2s,
                    command_input_s2t: false,
                    command_result_t2s: false,
                    translation_mode: false,
                    jyutping_mode: false,
                };
                let outcome = run_flags(init, flags_of(tokens.deep_view()));
                &&& final(self).input_s2t == outcome.0.session_input_s2t
                &&& final(self).result_t2s == outcome.0.session_result_t2s
                &&& final(self).no_color_output == old(self).no_color_output
                &&& match outcome.1 {
                    Some(t) => r matches Err(CommandError::InvalidArgument(s)) && s@ == t,
                    None => r matches Ok(plan) && plan.words.deep_view() == words_of(
                        tokens.deep_view(),
                    ) && plan.input_s2t == (outcome.0.session_input_s2t
                        || outcome.0.command_input_s2t) && plan.result_t2s == (
                    outcome.0.session_result_t2s || outcome.0.command_result_t2s) && plan.mode == (
                    if outcome.0.translation_mode {
                        QueryMode::Translation
                    } else if outcome.0.jyutping_mode {
                        QueryMode::Jyutping
                    } else {
                        QueryMode::Dict
                    }),
                }
            }),
    {
        let ghost toks = tokens.deep_view();
        let ghost init = CmdState {
            session_input_s2t: self.input_s2t,
            session_result_t2s: self.result_t2s,
            command_input_s2t: false,
            command_result_t2s: false,
            translation_mode: false,
            jyutping_mode: false,
        };
        let mut words: Vec<String> = Vec::new();
        let mut command_input_s2t = false;
        let mut command_result_t2s = false;
        let mut translation_mode = false;
        let mut jyutping_mode = false;
        let n = tokens.len();
        let mut i: usize = 0;
        proof {
            assert(toks.take(0) =~= Seq::<Seq<char>>::empty());
            assert(words.deep_view() =~= words_of(toks.take(0)));
        }
        while i < n
            invariant
                0 <= i <= n,
                n == toks.len(),
                toks == tokens.deep_view(),
                init == (CmdState {
                    session_input_s2t: old(self).input_s2t,
                    session_result_t2s: old(self).result_t2s,
                    command_input_s2t: false,
                    command_result_t2s: false,
                    translation_mode: false,
                    jyutping_mode: false,
                }),
                self.no_color_output == old(self).no_color_output,
                run_flags(init, flags_of(toks.take(i as int))) == (CmdState {
                    session_input_s2t: self.input_s2t,
                    session_result_t2s: self.result_t2s,
                    command_input_s2t: command_input_s2t,
                    command_result_t2s: command_result_t2s,
                    translation_mode: translation_mode,
                    jyutping_mode: jyutping_mode,
                }, None::<Seq<char>>),
                words.deep_view() == words_of(toks.take(i as int)),
            decreases n - i,
        {
            let token = &tokens[i];
            let ghost st_pre = CmdState {
                session_input_s2t: self.input_s2t,
                session_result_t2s: self.result_t2s,
                command_input_s2t: command_input_s2t,
                command_result_t2s: command_result_t2s,
                translation_mode: translation_mode,
                jyutping_mode: jyutping_mode,
            };
            proof {
                assert(toks.take(i + 1).drop_last() =~= toks.take(i as int));
                assert(toks.take(i + 1).last() == toks[i as int]);
            }
            let flagged = token.as_str().unicode_len() > 0 && token.as_str().get_char(0) == '-';
            if !flagged {
                let ghost before = words.deep_view();
                words.push(token.clone());
                proof {
                    assert(words.deep_view() =~= before.push(token@));
                }
            } else {
                proof {
                    lemma_run_flags_push(init, flags_of(toks.take(i as int)), toks[i as int]);
                }
                if is_tok(token, "--input-s2t") || is_tok(token, "-i") {
                    command_input_s2t = true;
                } else if is_tok(token, "--result-t2s") || is_tok(token, "-r") {
                    command_result_t2s = true;
                } else if is_tok(token, "--translation") || is_tok(token, "-t") {
                    translation_mode = true;
                } else if is_tok(token, "--jyutping") || is_tok(token, "-j") {
                    jyutping_mode = true;
                } else if is_tok(token, "--set-mode-input-s2t") {
                    self.set_console_mode(&OpenccConvertMode::S2T, true);
                } else if is_tok(token, "--set-mode-result-t2s") {
                    self.set_console_mode(&OpenccConvertMode::T2S, true);
                } else if is_tok(token, "--unset-mode-input-s2t") {
                    self.set_console_mode(&OpenccConvertMode::S2T, false);
                } else if is_tok(token, "--unset-mode-result-t2s") {
                    self.set_console_mode(&OpenccConvertMode::T2S, false);
                } else if is_tok(token, "--unset-mode-all") {
                    self.set_console_mode(&OpenccConvertMode::S2T, false);
                    self.set_console_mode(&OpenccConvertMode::T2S, false);
                } else {
                    proof {
                        assert(apply_flag(st_pre, toks[i as int]) is None);
                        assert(run_flags(init, flags_of(toks.take(i + 1))) == (
                        st_pre,
                        Some(toks[i as int]),
                        ));
                        lemma_flags_of_add(toks.take(i + 1), toks.skip(i + 1));
                        assert(toks.take(i + 1) + toks.skip(i + 1) =~= toks);
                        lemma_run_flags_stuck(
                            init,
                            flags_of(toks.take(i + 1)),
                            flags_of(toks.skip(i + 1)),
                        );
                    }
                    return Err(CommandError::InvalidArgument(token.clone()));
                }
            }
            i = i + 1;
        }
        proof {
            assert(toks.take(n as int) =~= toks);
        }
        let input_s2t = self.input_s2t || command_input_s2t;
        let result_t2s = self.result_t2s || command_result_t2s;
        let mode = if translation_mode {
            QueryMode::Translation
        } else if jyutping_mode {
            QueryMode::Jyutping
        } else {
            QueryMode::Dict
        };
        Ok(CommandPlan { words, input_s2t, result_t2s, mode })
    }
}

} // verus!
