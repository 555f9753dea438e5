//! Turning a configured action and a selection into the program to run.

use crate::state::{join_words, name_views};
use crate::text::str_eq;
use vstd::prelude::*;

verus! {

/// A parse failure of `shell_words::split`: a quote was left open.
#[verifier::external_type_specification]
#[verifier::external_body]
pub struct ExShellParseError(shell_words::ParseError);

/// What `shell_words::split` gives for a command line: its words, or `None` where a quote is
/// left open.
pub uninterp spec fn shell_split(line: Seq<char>) -> Option<Seq<Seq<char>>>;

/// What `shell_words::quote` gives for a word.
pub uninterp spec fn shell_quote(word: Seq<char>) -> Seq<char>;

/// The characters at which `shell_words::split` ends a word outside quotes.
pub open spec fn is_blank(c: char) -> bool {
    c == ' ' || c == '\t' || c == '\n'
}

/// A command line without quotes, backslashes or comments.
pub open spec fn is_plain_line(line: Seq<char>) -> bool {
    forall|k: int|
        0 <= k < line.len() ==> {
            let c = #[trigger] line[k];
            c != '\'' && c != '"' && c != '\\' && c != '#'
        }
}

/// The blank-separated fields of `line`, the first of them continuing the field `cur`.
pub open spec fn fields_from(line: Seq<char>, cur: Seq<char>) -> Seq<Seq<char>>
    decreases line.len(),
{
    let done = if cur.len() > 0 {
        seq![cur]
    } else {
        Seq::<Seq<char>>::empty()
    };
    if line.len() == 0 {
        done
    } else if is_blank(line[0]) {
        done + fields_from(line.drop_first(), Seq::empty())
    } else {
        fields_from(line.drop_first(), cur.push(line[0]))
    }
}

/// The blank-separated fields of a line.
pub open spec fn fields(line: Seq<char>) -> Seq<Seq<char>> {
    fields_from(line, Seq::empty())
}

/// The characters that `shell_words::quote` escapes.
pub open spec fn is_shell_special(c: char) -> bool {
    c == '\n' || c == '\'' || c == '|' || c == '&' || c == ';' || c == '<' || c == '>' || c == '('
        || c == ')' || c == '$' || c == '`' || c == '\\' || c == '"' || c == ' ' || c == '\t'
        || c == '*' || c == '?' || c == '[' || c == '#' || c == '~' || c == '=' || c == '%'
}

/// Calls `shell_words::split`. Claimed: the result is a function of the line, `Err` exactly
/// where the name says `None`; on a line without quotes, backslashes or `#` it never fails and
/// gives the fields between spaces, tabs and newlines.
#[verifier::external_body]
fn split_words(line: &str) -> (res: Result<Vec<String>, shell_words::ParseError>)
    ensures
        (res is Err) <==> (shell_split(line@) is None),
        (res matches Ok(words) ==> shell_split(line@) == Some(name_views(words@))),
        is_plain_line(line@) ==> res is Ok,
        is_plain_line(line@) ==> (res matches Ok(words) ==> name_views(words@) == fields(line@)),
{
    shell_words::split(line)
}

/// Calls `shell_words::quote`. Claimed: the result is a function of the word; a word that is
/// not empty and holds none of the characters that it escapes comes back unchanged, and the
/// empty word comes back as `''`.
#[verifier::external_body]
fn quote_word(word: &str) -> (res: String)
    ensures
        res@ == shell_quote(word@),
        word@.len() > 0 && (forall|k: int| 0 <= k < word@.len() ==> !is_shell_special(#[trigger] word@[k]))
            ==> res@ == word@,
        word@.len() == 0 ==> res@ == seq!['\'', '\''],
{
    shell_words::quote(word).into_owned()
}

/// The program to run for a selection, its arguments, and what it reads on standard input.
#[derive(Clone, Debug, PartialEq, Eq)]
pub struct ActionInput {
    pub program: String,
    pub args: Vec<String>,
    pub stdin: Option<String>,
}

/// An action input as a mathematical value.
pub struct ActionInputView {
    pub program: Seq<char>,
    pub args: Seq<Seq<char>>,
    pub stdin: Option<Seq<char>>,
}

impl View for ActionInput {
    type V = ActionInputView;

    open spec fn view(&self) -> ActionInputView {
        ActionInputView {
            program: self.program@,
            args: name_views(self.args@),
            stdin: match self.stdin {
                Some(s) => Some(s@),
                None => None,
            },
        }
    }
}

/// Why an action could not be built.
#[derive(Debug)]
pub enum ActionError {
    /// The action left a quote open.
    Parse(shell_words::ParseError),
    /// The action has no words.
    Empty,
}

/// The word that stands for the selection in an action.
pub open spec fn placeholder() -> Seq<char> {
    seq!['{', '}']
}

/// The first word that is the placeholder.
pub open spec fn first_placeholder(words: Seq<Seq<char>>) -> Option<int> {
    if exists|i: int| 0 <= i < words.len() && words[i] == placeholder() {
        Some(
            choose|i: int|
                0 <= i < words.len() && words[i] == placeholder() && forall|j: int|
                    0 <= j < i ==> words[j] != placeholder(),
        )
    } else {
        None
    }
}

/// The action for a command line's words and a selection: the first word is the program; the
/// first later word that is `{}` is replaced by the selection, and where there is none the
/// selection goes to standard input. `None` for no words.
pub open spec fn action_for_words(words: Seq<Seq<char>>, selection: Seq<char>) -> Option<
    ActionInputView,
> {
    if words.len() == 0 {
        None
    } else {
        let args = words.drop_first();
        match first_placeholder(args) {
            Some(p) => Some(
                ActionInputView { program: words[0], args: args.update(p, selection), stdin: None },
            ),
            None => Some(ActionInputView { program: words[0], args, stdin: Some(selection) }),
        }
    }
}

proof fn lemma_first_placeholder_exists(words: Seq<Seq<char>>, w: int)
    requires
        0 <= w < words.len(),
        words[w] == placeholder(),
    ensures
        exists|i: int|
            0 <= i < words.len() && words[i] == placeholder() && forall|j: int|
                0 <= j < i ==> words[j] != placeholder(),
    decreases w,
{
    if exists|j: int| 0 <= j < w && words[j] == placeholder() {
        let j = choose|j: int| 0 <= j < w && words[j] == placeholder();
        lemma_first_placeholder_exists(words, j);
    }
}

/// Builds the action from the words of its command line.
pub fn action_from_words(words: Vec<String>, selection: &str) -> (res: Result<
    ActionInput,
    ActionError,
>)
    ensures
        action_for_words(name_views(words@), selection@) is None ==> res matches Err(
            ActionError::Empty,
        ),
        action_for_words(name_views(words@), selection@) matches Some(a) ==> res matches Ok(r)
            && r@ == a,
{
    let ghost wv = name_views(words@);
    if words.len() == 0 {
        return Err(ActionError::Empty);
    }
    let program = words[0].clone();
    let ghost args_view = wv.drop_first();
    let mut args: Vec<String> = Vec::new();
    let mut found: Option<usize> = None;
    proof {
        reveal_strlit("{}");
    }
    for i in 1..words.len()
        invariant
            wv == name_views(words@),
            args_view == wv.drop_first(),
            args.len() == i - 1,
            found is None ==> name_views(args@) == args_view.take(i - 1) && forall|j: int|
                0 <= j < i - 1 ==> args_view[j] != placeholder(),
            found matches Some(p) ==> p < i - 1 && args_view[p as int] == placeholder() && (forall|
                j: int,
            |
                0 <= j < p ==> args_view[j] != placeholder()) && name_views(args@)
                == args_view.take(i - 1).update(p as int, selection@),
    {
        let ghost before = args@;
        proof {
            reveal_strlit("{}");
        }
        assert(words@[i as int]@ == args_view[i - 1]);
        let is_placeholder = found.is_none() && str_eq(words[i].as_str(), "{}");
        proof {
            if found is None && !is_placeholder {
                assert("{}"@ == placeholder());
                assert(args_view[i - 1] != placeholder());
            }
        }
        if is_placeholder {
            args.push(selection.to_string());
            found = Some(i - 1);
            proof {
                assert(name_views(args@) =~= name_views(before).push(selection@));
                assert(name_views(args@) =~= args_view.take(i as int).update(i - 1, selection@));
            }
        } else {
            args.push(words[i].clone());
            proof {
                assert(name_views(args@) =~= name_views(before).push(args_view[i - 1]));
                assert(args_view.take(i as int) =~= args_view.take(i - 1).push(args_view[i - 1]));
                if let Some(p) = found {
                    assert(name_views(args@) =~= args_view.take(i as int).update(p as int, selection@));
                } else {
                    assert(name_views(args@) =~= args_view.take(i as int));
                }
            }
        }
    }
    proof {
        assert(args_view.take(words.len() - 1) =~= args_view);
    }
    match found {
        Some(p) => {
            proof {
                lemma_first_placeholder_exists(args_view, p as int);
                let q = choose|q: int|
                    0 <= q < args_view.len() && args_view[q] == placeholder() && forall|j: int|
                        0 <= j < q ==> args_view[j] != placeholder();
                assert(q == p as int);
            }
            Ok(ActionInput { program, args, stdin: None })
        },
        None => Ok(ActionInput { program, args, stdin: Some(selection.to_string()) }),
    }
}

/// Builds the action to run for a selection: the command line is split into words as a shell
/// would, without expansions.
pub fn build_action(action: &str, selection: &str) -> (res: Result<ActionInput, ActionError>)
    ensures
        shell_split(action@) is None ==> res matches Err(ActionError::Parse(_)),
        shell_split(action@) matches Some(words) ==> match action_for_words(words, selection@) {
            None => res matches Err(ActionError::Empty),
            Some(a) => res matches Ok(r) && r@ == a,
        },
        is_plain_line(action@) ==> match action_for_words(fields(action@), selection@) {
            None => res matches Err(ActionError::Empty),
            Some(a) => res matches Ok(r) && r@ == a,
        },
{
    match split_words(action) {
        Err(e) => Err(ActionError::Parse(e)),
        Ok(words) => action_from_words(words, selection),
    }
}

/// The action used when none is configured and the label was not typed in uppercase: the rmux
/// executable, quoted for a shell, loading the selection into a buffer from standard input.
pub fn default_action(rmux: &str) -> (res: String)
    ensures
        res@ == shell_quote(rmux@) + " load-buffer -"@,
        rmux@.len() > 0 && (forall|k: int| 0 <= k < rmux@.len() ==> !is_shell_special(#[trigger] rmux@[k]))
            ==> res@ == rmux@ + " load-buffer -"@,
{
    let mut out = quote_word(rmux);
    out.append(" load-buffer -");
    out
}

/// The environment an action runs with: the names of the patterns behind the selection,
/// joined by spaces, and the target pane.
pub fn action_environment(matcher_names: &[String], pane: &str) -> (res: Vec<(String, String)>)
    ensures
        res@.len() == 2,
        res@[0].0@ == "FASTCOPY_REGEX_NAME"@,
        res@[0].1@ == join_words(name_views(matcher_names@)),
        res@[1].0@ == "FASTCOPY_TARGET_PANE_ID"@,
        res@[1].1@ == pane@,
{
    let ghost nv = name_views(matcher_names@);
    let mut joined = String::new();
    proof {
        reveal_strlit(" ");
    }
    for i in 0..matcher_names.len()
        invariant
            nv == name_views(matcher_names@),
            joined@ == join_words(nv.take(i as int)),
    {
        let ghost before = joined@;
        proof {
            reveal_strlit(" ");
        }
        if i > 0 {
            joined.append(" ");
        }
        let ghost mid = joined@;
        joined.append(matcher_names[i].as_str());
        proof {
            assert(nv[i as int] == matcher_names@[i as int]@);
            assert(joined@ == mid + nv[i as int]);
            if i > 0 {
                assert(mid == before + seq![' ']);
            }
            let t = nv.take(i + 1);
            assert(t.drop_last() =~= nv.take(i as int));
            assert(t.last() == matcher_names@[i as int]@);
            if i == 0 {
                assert(joined@ =~= t[0]);
            } else {
                assert(joined@ =~= before + seq![' '] + t.last());
            }
        }
    }
    proof {
        assert(nv.take(matcher_names.len() as int) =~= nv);
    }
    let mut env: Vec<(String, String)> = Vec::new();
    env.push(("FASTCOPY_REGEX_NAME".to_string(), joined));
    env.push(("FASTCOPY_TARGET_PANE_ID".to_string(), pane.to_string()));
    env
}

/// The first word is the program. When a later word is `{}` (the last one included), the
/// first such word, and only it, becomes the selection, and nothing goes to standard input;
/// the other words stay as they are. A command line without words gives no action.
pub proof fn lemma_placeholder_replaced(words: Seq<Seq<char>>, selection: Seq<char>, p: int)
    requires
        0 <= p,
        p + 1 < words.len(),
        words[p + 1] == seq!['{', '}'],
        forall|j: int| 1 <= j <= p ==> #[trigger] words[j] != seq!['{', '}'],
    ensures
        action_for_words(words, selection) matches Some(a) && a.program == words[0]
            && a.stdin is None && a.args.len() == words.len() - 1 && a.args[p] == selection
            && forall|j: int| 0 <= j < a.args.len() && j != p ==> a.args[j] == words[j + 1],
{
    let args = words.drop_first();
    assert(args[p] == placeholder());
    lemma_first_placeholder_exists(args, p);
    let q = choose|q: int|
        0 <= q < args.len() && args[q] == placeholder() && forall|j: int|
            0 <= j < q ==> args[j] != placeholder();
    if q < p {
        assert(args[q] == words[q + 1]);
        assert(words[q + 1] != seq!['{', '}']);
    } else if q > p {
        assert(args[p] != placeholder());
    }
    assert(q == p);
}

/// When no word after the program is `{}`, the words after it are the arguments unchanged and
/// the selection goes to standard input.
pub proof fn lemma_no_placeholder_uses_stdin(words: Seq<Seq<char>>, selection: Seq<char>)
    requires
        words.len() > 0,
        forall|j: int| 1 <= j < words.len() ==> words[j] != seq!['{', '}'],
    ensures
        action_for_words(words, selection) matches Some(a) && a.program == words[0]
            && a.stdin == Some(selection) && a.args.len() == words.len() - 1 && forall|j: int|
            0 <= j < a.args.len() ==> a.args[j] == words[j + 1],
        action_for_words(Seq::empty(), selection) is None,
{
    let args = words.drop_first();
    assert forall|i: int| 0 <= i < args.len() implies args[i] != placeholder() by {
        assert(args[i] == words[i + 1]);
        assert(words[i + 1] != seq!['{', '}']);
    }
    assert(first_placeholder(args) is None);
    let a = action_for_words(words, selection)->0;
    assert(a.args == args);
}

} // verus!
