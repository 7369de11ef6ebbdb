//! The argument interpreter: a left-to-right scan over the invocation tokens
//! (index 0, the program name, is skipped) that yields either a help request
//! or a search command. Malformed or contradictory input always degrades to
//! help, never to a hard error.

use crate::strings::opt_chars;
use crate::strings::str_eq;
use vstd::prelude::*;

verus! {

/// Where the document text comes from.
pub enum Input {
    File(String),
    Stdin,
}

/// The parsed command: show usage, or search/summarize with the gathered
/// key, exact value, substring and input source.
pub enum Args {
    Help,
    Key { key: Option<String>, val: Option<String>, contains: Option<String>, input: Input },
}

/// Mathematical image of `Input`.
pub enum InputModel {
    File(Seq<char>),
    Stdin,
}

/// The state gathered by the scan: the last key, exact value and substring
/// supplied, and the chosen input source.
pub struct Collected {
    pub key: Option<Seq<char>>,
    pub val: Option<Seq<char>>,
    pub contains: Option<Seq<char>>,
    pub input: InputModel,
}

/// Mathematical image of `Args`.
pub enum ArgsModel {
    Help,
    Key(Collected),
}

impl View for Input {
    type V = InputModel;

    open spec fn view(&self) -> InputModel {
        match self {
            Input::File(path) => InputModel::File(path@),
            Input::Stdin => InputModel::Stdin,
        }
    }
}

/// The state the exec scan has gathered, as a `Collected`.
pub open spec fn gathered(
    key: Option<String>,
    val: Option<String>,
    contains: Option<String>,
    input: Input,
) -> Collected {
    Collected { key: opt_chars(key), val: opt_chars(val), contains: opt_chars(contains), input: input@ }
}

impl View for Args {
    type V = ArgsModel;

    open spec fn view(&self) -> ArgsModel {
        match self {
            Args::Help => ArgsModel::Help,
            Args::Key { key, val, contains, input } => ArgsModel::Key(
                gathered(*key, *val, *contains, *input),
            ),
        }
    }
}

pub open spec fn is_help_tok(t: Seq<char>) -> bool {
    t == "-h"@ || t == "--help"@
}

pub open spec fn is_key_tok(t: Seq<char>) -> bool {
    t == "-k"@ || t == "--key"@
}

pub open spec fn is_val_tok(t: Seq<char>) -> bool {
    t == "-v"@ || t == "--value"@
}

pub open spec fn is_con_tok(t: Seq<char>) -> bool {
    t == "-c"@ || t == "--contains"@
}

/// A token that consumes the following token as its argument.
pub open spec fn consumes_next(t: Seq<char>) -> bool {
    is_key_tok(t) || is_val_tok(t) || is_con_tok(t)
}

pub open spec fn init_collected() -> Collected {
    Collected { key: None, val: None, contains: None, input: InputModel::Stdin }
}

/// The decision taken once the scan has consumed every token: exact value and
/// substring are mutually exclusive, and either one without a key is
/// meaningless; both degrade to help.
pub open spec fn finish_scan(st: Collected) -> ArgsModel {
    if st.val is Some && st.contains is Some {
        ArgsModel::Help
    } else if st.key is None && (st.val is Some || st.contains is Some) {
        ArgsModel::Help
    } else {
        ArgsModel::Key(st)
    }
}

/// The scan from token `i` onward, with `st` gathered so far. A help token
/// short-circuits; `-k`/`-v`/`-c` consume the following token (help when none
/// follows); any other token in last position names the input file; all other
/// tokens are ignored.
pub open spec fn scan_args(toks: Seq<Seq<char>>, i: int, st: Collected) -> ArgsModel
    decreases toks.len() - i,
{
    if i < 0 || i >= toks.len() {
        finish_scan(st)
    } else if is_help_tok(toks[i]) {
        ArgsModel::Help
    } else if is_key_tok(toks[i]) {
        if i + 1 < toks.len() {
            scan_args(
                toks,
                i + 2,
                Collected { key: Some(toks[i + 1]), val: st.val, contains: st.contains, input: st.input },
            )
        } else {
            ArgsModel::Help
        }
    } else if is_val_tok(toks[i]) {
        if i + 1 < toks.len() {
            scan_args(
                toks,
                i + 2,
                Collected { key: st.key, val: Some(toks[i + 1]), contains: st.contains, input: st.input },
            )
        } else {
            ArgsModel::Help
        }
    } else if is_con_tok(toks[i]) {
        if i + 1 < toks.len() {
            scan_args(
                toks,
                i + 2,
                Collected { key: st.key, val: st.val, contains: Some(toks[i + 1]), input: st.input },
            )
        } else {
            ArgsModel::Help
        }
    } else if i == toks.len() - 1 {
        scan_args(
            toks,
            i + 1,
            Collected { key: st.key, val: st.val, contains: st.contains, input: InputModel::File(toks[i]) },
        )
    } else {
        scan_args(toks, i + 1, st)
    }
}

/// What the whole argument list (program name included, at index 0) parses to.
pub open spec fn parse_args_model(toks: Seq<Seq<char>>) -> ArgsModel {
    scan_args(toks, 1, init_collected())
}

/// Parse the arguments: the full ordered invocation list, program name first.
pub fn parse_args(args: Vec<String>) -> (r: Args)
    ensures
        r@ == parse_args_model(args.deep_view()),
{
    let ghost toks = args.deep_view();
    let mut key: Option<String> = None;
    let mut val: Option<String> = None;
    let mut contains: Option<String> = None;
    let mut input: Input = Input::Stdin;

    let n = args.len();
    let mut i: usize = 1;
    while i < n
        invariant
            n == args.len(),
            toks == args.deep_view(),
            1 <= i <= n + 1,
            scan_args(toks, i as int, gathered(key, val, contains, input)) == parse_args_model(
                toks,
            ),
        decreases n - i,
    {
        let tok = &args[i];
        proof {
            assert(toks[i as int] == tok@);
        }
        if str_eq(tok.as_str(), "-h") || str_eq(tok.as_str(), "--help") {
            return Args::Help;
        } else if str_eq(tok.as_str(), "-k") || str_eq(tok.as_str(), "--key") {
            if i + 1 < n {
                key = Some(args[i + 1].clone());
                i += 2;
            } else {
                return Args::Help;
            }
        } else if str_eq(tok.as_str(), "-v") || str_eq(tok.as_str(), "--value") {
            if i + 1 < n {
                val = Some(args[i + 1].clone());
                i += 2;
            } else {
                return Args::Help;
            }
        } else if str_eq(tok.as_str(), "-c") || str_eq(tok.as_str(), "--contains") {
            if i + 1 < n {
                contains = Some(args[i + 1].clone());
                i += 2;
            } else {
                return Args::Help;
            }
        } else {
            if i == n - 1 {
                input = Input::File(tok.clone());
            }
            i += 1;
        }
    }
    if val.is_some() && contains.is_some() {
        return Args::Help;
    }
    if key.is_none() && (val.is_some() || contains.is_some()) {
        return Args::Help;
    }
    Args::Key { key, val, contains, input }
}

/// The scan, started at token `i`, reads the token at position `j` itself
/// (rather than consuming it as a flag's argument or never reaching it).
pub open spec fn scan_visits(toks: Seq<Seq<char>>, i: int, j: int) -> bool
    decreases j - i,
{
    if i == j {
        true
    } else if i < j && 0 <= i < toks.len() {
        let step: int = if consumes_next(toks[i]) {
            2
        } else {
            1
        };
        if i + step <= j {
            scan_visits(toks, i + step, j)
        } else {
            false
        }
    } else {
        false
    }
}

/// An exact value is in force from token `i` onward: one was gathered
/// already, or a `-v`/`--value` token will be read.
spec fn supplies_val(toks: Seq<Seq<char>>, i: int, st: Collected) -> bool {
    st.val is Some || exists|j: int|
        #[trigger] scan_visits(toks, i, j) && 0 <= j < toks.len() && is_val_tok(toks[j])
}

/// A substring is in force from token `i` onward.
spec fn supplies_con(toks: Seq<Seq<char>>, i: int, st: Collected) -> bool {
    st.contains is Some || exists|j: int|
        #[trigger] scan_visits(toks, i, j) && 0 <= j < toks.len() && is_con_tok(toks[j])
}

/// A key is in force from token `i` onward.
spec fn supplies_key(toks: Seq<Seq<char>>, i: int, st: Collected) -> bool {
    st.key is Some || exists|j: int|
        #[trigger] scan_visits(toks, i, j) && 0 <= j < toks.len() && is_key_tok(toks[j])
}

/// The four flag classes are pairwise disjoint.
proof fn lemma_flag_tokens_distinct()
    ensures
        forall|t: Seq<char>|
            #[trigger] is_help_tok(t) ==> !is_key_tok(t) && !is_val_tok(t) && !is_con_tok(t),
        forall|t: Seq<char>|
            #[trigger] is_key_tok(t) ==> !is_val_tok(t) && !is_con_tok(t) && !is_help_tok(t),
        forall|t: Seq<char>|
            #[trigger] is_val_tok(t) ==> !is_con_tok(t) && !is_key_tok(t) && !is_help_tok(t),
        forall|t: Seq<char>|
            #[trigger] is_con_tok(t) ==> !is_key_tok(t) && !is_val_tok(t) && !is_help_tok(t),
{
    reveal_strlit("-h");
    reveal_strlit("--help");
    reveal_strlit("-k");
    reveal_strlit("--key");
    reveal_strlit("-v");
    reveal_strlit("--value");
    reveal_strlit("-c");
    reveal_strlit("--contains");
    assert("-h"@.len() == 2 && "-h"@[1] == 'h');
    assert("-k"@.len() == 2 && "-k"@[1] == 'k');
    assert("-v"@.len() == 2 && "-v"@[1] == 'v');
    assert("-c"@.len() == 2 && "-c"@[1] == 'c');
    assert("--help"@.len() == 6);
    assert("--key"@.len() == 5);
    assert("--value"@.len() == 7);
    assert("--contains"@.len() == 10);
}

/// A visited position lies at or after the start of the scan.
proof fn lemma_visits_in_range(toks: Seq<Seq<char>>, i: int, j: int)
    requires
        scan_visits(toks, i, j),
    ensures
        i <= j,
    decreases j - i,
{
    if i != j && i < j && 0 <= i < toks.len() {
        let step: int = if consumes_next(toks[i]) {
            2
        } else {
            1
        };
        if i + step <= j {
            lemma_visits_in_range(toks, i + step, j);
        }
    }
}

/// A scan that reads a help token stops at help.
proof fn lemma_scan_sees_help(toks: Seq<Seq<char>>, i: int, st: Collected, j: int)
    requires
        scan_visits(toks, i, j),
        0 <= j < toks.len(),
        is_help_tok(toks[j]),
    ensures
        scan_args(toks, i, st) == ArgsModel::Help,
    decreases j - i,
{
    lemma_flag_tokens_distinct();
    if i < j {
        if !is_help_tok(toks[i]) {
            let step: int = if consumes_next(toks[i]) {
                2
            } else {
                1
            };
            if consumes_next(toks[i]) {
                if i + 1 < toks.len() {
                    if is_key_tok(toks[i]) {
                        lemma_scan_sees_help(
                            toks,
                            i + 2,
                            Collected {
                                key: Some(toks[i + 1]),
                                val: st.val,
                                contains: st.contains,
                                input: st.input,
                            },
                            j,
                        );
                    } else if is_val_tok(toks[i]) {
                        lemma_scan_sees_help(
                            toks,
                            i + 2,
                            Collected {
                                key: st.key,
                                val: Some(toks[i + 1]),
                                contains: st.contains,
                                input: st.input,
                            },
                            j,
                        );
                    } else {
                        lemma_scan_sees_help(
                            toks,
                            i + 2,
                            Collected {
                                key: st.key,
                                val: st.val,
                                contains: Some(toks[i + 1]),
                                input: st.input,
                            },
                            j,
                        );
                    }
                }
            } else {
                if i == toks.len() - 1 {
                    lemma_scan_sees_help(
                        toks,
                        i + 1,
                        Collected {
                            key: st.key,
                            val: st.val,
                            contains: st.contains,
                            input: InputModel::File(toks[i]),
                        },
                        j,
                    );
                } else {
                    lemma_scan_sees_help(toks, i + 1, st, j);
                }
            }
        }
    }
}

/// A token visited from past a consuming token is visited from it too.
proof fn lemma_visits_unstep(toks: Seq<Seq<char>>, i: int, j: int, step: int)
    requires
        0 <= i < toks.len(),
        i < j,
        step == (if consumes_next(toks[i]) {
            2int
        } else {
            1int
        }),
        scan_visits(toks, i + step, j),
    ensures
        scan_visits(toks, i, j),
{
    lemma_visits_in_range(toks, i + step, j);
}

/// A scan that gathers both an exact value and a substring ends at help.
proof fn lemma_scan_both_criteria(toks: Seq<Seq<char>>, i: int, st: Collected)
    requires
        supplies_val(toks, i, st),
        supplies_con(toks, i, st),
    ensures
        scan_args(toks, i, st) == ArgsModel::Help,
    decreases toks.len() - i,
{
    lemma_flag_tokens_distinct();
    if i < 0 || i >= toks.len() {
        if st.val is None {
            let j = choose|j: int|
                #[trigger] scan_visits(toks, i, j) && 0 <= j < toks.len() && is_val_tok(toks[j]);
            assert(false);
        }
        if st.contains is None {
            let j = choose|j: int|
                #[trigger] scan_visits(toks, i, j) && 0 <= j < toks.len() && is_con_tok(toks[j]);
            assert(false);
        }
    } else if is_help_tok(toks[i]) {
    } else if consumes_next(toks[i]) {
        if i + 1 < toks.len() {
            let st2 = if is_key_tok(toks[i]) {
                Collected { key: Some(toks[i + 1]), val: st.val, contains: st.contains, input: st.input }
            } else if is_val_tok(toks[i]) {
                Collected { key: st.key, val: Some(toks[i + 1]), contains: st.contains, input: st.input }
            } else {
                Collected { key: st.key, val: st.val, contains: Some(toks[i + 1]), input: st.input }
            };
            assert(supplies_val(toks, i + 2, st2)) by {
                if !(st2.val is Some) {
                    let j = choose|j: int|
                        #[trigger] scan_visits(toks, i, j) && 0 <= j < toks.len() && is_val_tok(
                            toks[j],
                        );
                    lemma_visits_in_range(toks, i, j);
                    assert(scan_visits(toks, i + 2, j));
                }
            }
            assert(supplies_con(toks, i + 2, st2)) by {
                if !(st2.contains is Some) {
                    let j = choose|j: int|
                        #[trigger] scan_visits(toks, i, j) && 0 <= j < toks.len() && is_con_tok(
                            toks[j],
                        );
                    lemma_visits_in_range(toks, i, j);
                    assert(scan_visits(toks, i + 2, j));
                }
            }
            lemma_scan_both_criteria(toks, i + 2, st2);
        }
    } else {
        let st2 = if i == toks.len() - 1 {
            Collected { key: st.key, val: st.val, contains: st.contains, input: InputModel::File(toks[i]) }
        } else {
            st
        };
        assert(supplies_val(toks, i + 1, st2)) by {
            if !(st2.val is Some) {
                let j = choose|j: int|
                    #[trigger] scan_visits(toks, i, j) && 0 <= j < toks.len() && is_val_tok(
                        toks[j],
                    );
                lemma_visits_in_range(toks, i, j);
                assert(scan_visits(toks, i + 1, j));
            }
        }
        assert(supplies_con(toks, i + 1, st2)) by {
            if !(st2.contains is Some) {
                let j = choose|j: int|
                    #[trigger] scan_visits(toks, i, j) && 0 <= j < toks.len() && is_con_tok(
                        toks[j],
                    );
                lemma_visits_in_range(toks, i, j);
                assert(scan_visits(toks, i + 1, j));
            }
        }
        lemma_scan_both_criteria(toks, i + 1, st2);
    }
}

/// A scan that gathers a criterion but never a key ends at help.
proof fn lemma_scan_needs_key(toks: Seq<Seq<char>>, i: int, st: Collected)
    requires
        !supplies_key(toks, i, st),
        supplies_val(toks, i, st) || supplies_con(toks, i, st),
    ensures
        scan_args(toks, i, st) == ArgsModel::Help,
    decreases toks.len() - i,
{
    lemma_flag_tokens_distinct();
    assert(st.key is None);
    if i < 0 || i >= toks.len() {
        if st.val is None && st.contains is None {
            if supplies_val(toks, i, st) {
                let j = choose|j: int|
                    #[trigger] scan_visits(toks, i, j) && 0 <= j < toks.len() && is_val_tok(
                        toks[j],
                    );
                assert(false);
            } else {
                let j = choose|j: int|
                    #[trigger] scan_visits(toks, i, j) && 0 <= j < toks.len() && is_con_tok(
                        toks[j],
                    );
                assert(false);
            }
        }
    } else if is_help_tok(toks[i]) {
    } else if is_key_tok(toks[i]) {
        if i + 1 < toks.len() {
            assert(scan_visits(toks, i, i));
            assert(supplies_key(toks, i, st));
        }
    } else if consumes_next(toks[i]) {
        if i + 1 < toks.len() {
            let st2 = if is_val_tok(toks[i]) {
                Collected { key: st.key, val: Some(toks[i + 1]), contains: st.contains, input: st.input }
            } else {
                Collected { key: st.key, val: st.val, contains: Some(toks[i + 1]), input: st.input }
            };
            assert(!supplies_key(toks, i + 2, st2)) by {
                if supplies_key(toks, i + 2, st2) {
                    let j = choose|j: int|
                        #[trigger] scan_visits(toks, i + 2, j) && 0 <= j < toks.len() && is_key_tok(
                            toks[j],
                        );
                    lemma_visits_unstep(toks, i, j, 2);
                }
            }
            lemma_scan_needs_key(toks, i + 2, st2);
        }
    } else {
        let st2 = if i == toks.len() - 1 {
            Collected { key: st.key, val: st.val, contains: st.contains, input: InputModel::File(toks[i]) }
        } else {
            st
        };
        assert(!supplies_key(toks, i + 1, st2)) by {
            if supplies_key(toks, i + 1, st2) {
                let j = choose|j: int|
                    #[trigger] scan_visits(toks, i + 1, j) && 0 <= j < toks.len() && is_key_tok(
                        toks[j],
                    );
                lemma_visits_unstep(toks, i, j, 1);
            }
        }
        assert(supplies_val(toks, i + 1, st2) || supplies_con(toks, i + 1, st2)) by {
            if st.val is None && st.contains is None {
                if supplies_val(toks, i, st) {
                    let j = choose|j: int|
                        #[trigger] scan_visits(toks, i, j) && 0 <= j < toks.len() && is_val_tok(
                            toks[j],
                        );
                    lemma_visits_in_range(toks, i, j);
                    assert(scan_visits(toks, i + 1, j));
                } else {
                    let j = choose|j: int|
                        #[trigger] scan_visits(toks, i, j) && 0 <= j < toks.len() && is_con_tok(
                            toks[j],
                        );
                    lemma_visits_in_range(toks, i, j);
                    assert(scan_visits(toks, i + 1, j));
                }
            }
        }
        lemma_scan_needs_key(toks, i + 1, st2);
    }
}

/// A scan that reads a consuming flag in last position ends at help.
proof fn lemma_scan_trailing_flag(toks: Seq<Seq<char>>, i: int, st: Collected)
    requires
        toks.len() >= 1,
        scan_visits(toks, i, toks.len() - 1),
        consumes_next(toks[toks.len() - 1]),
    ensures
        scan_args(toks, i, st) == ArgsModel::Help,
    decreases toks.len() - i,
{
    lemma_flag_tokens_distinct();
    lemma_visits_in_range(toks, i, toks.len() - 1);
    if i == toks.len() - 1 {
    } else {
        if is_key_tok(toks[i]) {
            lemma_scan_trailing_flag(
                toks,
                i + 2,
                Collected { key: Some(toks[i + 1]), val: st.val, contains: st.contains, input: st.input },
            );
        } else if is_val_tok(toks[i]) {
            lemma_scan_trailing_flag(
                toks,
                i + 2,
                Collected { key: st.key, val: Some(toks[i + 1]), contains: st.contains, input: st.input },
            );
        } else if is_con_tok(toks[i]) {
            lemma_scan_trailing_flag(
                toks,
                i + 2,
                Collected { key: st.key, val: st.val, contains: Some(toks[i + 1]), input: st.input },
            );
        } else if !is_help_tok(toks[i]) {
            lemma_scan_trailing_flag(toks, i + 1, st);
        }
    }
}

/// A help token anywhere the scan reads yields `Help`, whatever else is
/// present.
pub proof fn lemma_help_flag_wins(toks: Seq<Seq<char>>, j: int)
    requires
        scan_visits(toks, 1, j),
        0 <= j < toks.len(),
        is_help_tok(toks[j]),
    ensures
        parse_args_model(toks) == ArgsModel::Help,
{
    lemma_scan_sees_help(toks, 1, init_collected(), j);
}

/// Supplying both an exact value (`-v`) and a substring (`-c`) yields `Help`:
/// the two criteria are mutually exclusive.
pub proof fn lemma_value_and_contains_give_help(toks: Seq<Seq<char>>, jv: int, jc: int)
    requires
        scan_visits(toks, 1, jv),
        0 <= jv < toks.len(),
        is_val_tok(toks[jv]),
        scan_visits(toks, 1, jc),
        0 <= jc < toks.len(),
        is_con_tok(toks[jc]),
    ensures
        parse_args_model(toks) == ArgsModel::Help,
{
    assert(supplies_val(toks, 1, init_collected()));
    assert(supplies_con(toks, 1, init_collected()));
    lemma_scan_both_criteria(toks, 1, init_collected());
}

/// Supplying `-v` or `-c` while no key token is ever read yields `Help`: a
/// criterion without a field to test is meaningless.
pub proof fn lemma_criterion_without_key_gives_help(toks: Seq<Seq<char>>, j: int)
    requires
        scan_visits(toks, 1, j),
        0 <= j < toks.len(),
        is_val_tok(toks[j]) || is_con_tok(toks[j]),
        forall|l: int|
            #[trigger] scan_visits(toks, 1, l) && 0 <= l < toks.len() ==> !is_key_tok(toks[l]),
    ensures
        parse_args_model(toks) == ArgsModel::Help,
{
    assert(!supplies_key(toks, 1, init_collected()));
    assert(supplies_val(toks, 1, init_collected()) || supplies_con(toks, 1, init_collected()));
    lemma_scan_needs_key(toks, 1, init_collected());
}

/// A consuming flag (`-k`, `-v`, `-c`) standing last, with no token left for
/// it to consume, yields `Help`.
pub proof fn lemma_trailing_flag_gives_help(toks: Seq<Seq<char>>)
    requires
        toks.len() >= 2,
        scan_visits(toks, 1, toks.len() - 1),
        consumes_next(toks[toks.len() - 1]),
    ensures
        parse_args_model(toks) == ArgsModel::Help,
{
    lemma_scan_trailing_flag(toks, 1, init_collected());
}

} // verus!
