//! The suggestion engine: completion candidates for a line as it is typed.
//!
//! Suggesting reads the registry and changes nothing. What it returns is a
//! function of the registry, the line and the sender.

use vstd::prelude::*;
use crate::command::CommandArgument;
use crate::graph::{indices, literal_names};
use crate::input::whitespace_skipped;
use crate::registry::Registry;
use crate::resolver::{argument_text, create_ctx, without_slash};
use crate::sender::Sender;
use crate::suggestion::{suggestion_views, Suggestion, SuggestionView};
use crate::text::{
    current_token, has_prefix, last_token, lemma_tokens_cut, starts_with, strip_slash, texts,
    tokens,
};

verus! {

/// `sorted` with `x` put behind every entry that is no longer than `x`.
pub open spec fn insert_by_length(sorted: Seq<Seq<char>>, x: Seq<char>) -> Seq<Seq<char>>
    decreases sorted.len(),
{
    if sorted.len() > 0 && sorted.last().len() > x.len() {
        insert_by_length(sorted.drop_last(), x).push(sorted.last())
    } else {
        sorted.push(x)
    }
}

/// `names` in ascending order of length. Names of one length keep the order
/// that they have in `names`.
pub open spec fn sorted_by_length(names: Seq<Seq<char>>) -> Seq<Seq<char>>
    decreases names.len(),
{
    if names.len() == 0 {
        Seq::empty()
    } else {
        insert_by_length(sorted_by_length(names.drop_last()), names.last())
    }
}

/// Whether `names` is in ascending order of length.
pub open spec fn ordered_by_length(names: Seq<Seq<char>>) -> bool {
    forall|i: int, j: int| 0 <= i <= j < names.len() ==> names[i].len() <= names[j].len()
}

/// Inserting by length puts the entry at the position behind which every
/// entry is longer and before which none is.
pub proof fn lemma_insert_by_length(sorted: Seq<Seq<char>>, x: Seq<char>, p: int)
    requires
        0 <= p <= sorted.len(),
        forall|j: int| p <= j < sorted.len() ==> (#[trigger] sorted[j]).len() > x.len(),
        p > 0 ==> sorted[p - 1].len() <= x.len(),
    ensures
        insert_by_length(sorted, x) == sorted.insert(p, x),
    decreases sorted.len() - p,
{
    if p < sorted.len() {
        assert(sorted.last().len() > x.len());
        let front = sorted.drop_last();
        assert forall|j: int| p <= j < front.len() implies (#[trigger] front[j]).len()
            > x.len() by {
            assert(front[j] == sorted[j]);
        }
        lemma_insert_by_length(front, x, p);
        assert(front.insert(p, x).push(sorted.last()) == sorted.insert(p, x));
    } else {
        assert(sorted.push(x) == sorted.insert(p, x));
    }
}

/// Inserting by length keeps an ascending order and adds one entry.
pub proof fn lemma_insert_keeps_order(sorted: Seq<Seq<char>>, x: Seq<char>)
    requires
        ordered_by_length(sorted),
    ensures
        ordered_by_length(insert_by_length(sorted, x)),
        insert_by_length(sorted, x).len() == sorted.len() + 1,
        insert_by_length(sorted, x).to_multiset() == sorted.to_multiset().insert(x),
    decreases sorted.len(),
{
    broadcast use vstd::seq_lib::group_to_multiset_ensures;

    if sorted.len() > 0 && sorted.last().len() > x.len() {
        let front = sorted.drop_last();
        assert forall|i: int, j: int| 0 <= i <= j < front.len() implies front[i].len()
            <= front[j].len() by {
            assert(front[i] == sorted[i] && front[j] == sorted[j]);
        }
        lemma_insert_keeps_order(front, x);
        let inner = insert_by_length(front, x);
        let out = inner.push(sorted.last());
        assert forall|i: int| 0 <= i < inner.len() implies (#[trigger] inner[i]).len()
            <= sorted.last().len() by {
            assert(inner.to_multiset().count(inner[i]) > 0);
            if inner[i] != x {
                assert(front.to_multiset().count(inner[i]) > 0);
                assert(front.contains(inner[i]));
                let w = choose|w: int| 0 <= w < front.len() && front[w] == inner[i];
                assert(sorted[w] == front[w]);
            }
        }
        assert forall|i: int, j: int| 0 <= i <= j < out.len() implies out[i].len()
            <= out[j].len() by {
            if j < inner.len() {
                assert(out[i] == inner[i] && out[j] == inner[j]);
            } else if i < inner.len() {
                assert(out[i] == inner[i]);
            }
        }
        assert(sorted == front.push(sorted.last()));
    } else {
        let out = sorted.push(x);
        assert forall|i: int, j: int| 0 <= i <= j < out.len() implies out[i].len()
            <= out[j].len() by {
            if j < sorted.len() {
                assert(out[i] == sorted[i] && out[j] == sorted[j]);
            } else if i < sorted.len() {
                assert(out[i] == sorted[i]);
                assert(sorted[i].len() <= sorted.last().len());
            }
        }
    }
}

/// Sorting by length gives the same names, each as often as before, in
/// ascending order of length.
pub proof fn lemma_sorted_by_length(names: Seq<Seq<char>>)
    ensures
        ordered_by_length(sorted_by_length(names)),
        sorted_by_length(names).len() == names.len(),
        sorted_by_length(names).to_multiset() == names.to_multiset(),
    decreases names.len(),
{
    broadcast use vstd::seq_lib::group_to_multiset_ensures;

    if names.len() > 0 {
        lemma_sorted_by_length(names.drop_last());
        lemma_insert_keeps_order(sorted_by_length(names.drop_last()), names.last());
        assert(names == names.drop_last().push(names.last()));
    }
}

/// `names` in ascending order of length; names of one length keep their
/// order.
pub fn sort_by_length(names: Vec<String>) -> (r: Vec<String>)
    ensures
        texts(r@) == sorted_by_length(texts(names@)),
        ordered_by_length(texts(r@)),
        texts(r@).to_multiset() == texts(names@).to_multiset(),
{
    let mut out: Vec<String> = Vec::new();
    let mut i: usize = 0;
    proof {
        assert(texts(names@).subrange(0, 0) == Seq::<Seq<char>>::empty());
    }
    while i < names.len()
        invariant
            i <= names@.len(),
            texts(out@) == sorted_by_length(texts(names@).subrange(0, i as int)),
        decreases names@.len() - i,
    {
        let x = names[i].clone();
        let width = x.as_str().unicode_len();
        let mut p = out.len();
        while p > 0 && out[p - 1].as_str().unicode_len() > width
            invariant
                p <= out@.len(),
                width == x@.len(),
                forall|j: int| p <= j < out@.len() ==> (#[trigger] texts(out@)[j]).len() > x@.len(),
            decreases p,
        {
            p -= 1;
        }
        let ghost before = texts(out@);
        out.insert(p, x);
        proof {
            let upto = texts(names@).subrange(0, i + 1);
            assert(upto.drop_last() == texts(names@).subrange(0, i as int));
            assert(upto.last() == x@);
            if p > 0 {
                assert(before[p - 1].len() <= x@.len());
            }
            lemma_insert_by_length(before, x@, p as int);
            assert(texts(out@) == before.insert(p as int, x@));
        }
        i += 1;
    }
    proof {
        assert(texts(names@).subrange(0, names@.len() as int) == texts(names@));
        lemma_sorted_by_length(texts(names@));
    }
    out
}

/// The names as suggestions without tooltips, in order.
pub open spec fn plain(names: Seq<Seq<char>>) -> Seq<SuggestionView> {
    Seq::new(names.len(), |i: int| SuggestionView { content: names[i], tooltip: None })
}

/// The candidates whose content begins with `token`, in order.
pub open spec fn matching(candidates: Seq<SuggestionView>, token: Seq<char>) -> Seq<
    SuggestionView,
>
    decreases candidates.len(),
{
    if candidates.len() == 0 {
        Seq::empty()
    } else {
        let rest = matching(candidates.drop_last(), token);
        if starts_with(candidates.last().content, token) {
            rest.push(candidates.last())
        } else {
            rest
        }
    }
}

/// Filtering keeps candidates and adds none: every candidate that is kept
/// begins with the token and is one of the candidates, and a candidate that
/// begins with the token is kept.
pub proof fn lemma_matching(candidates: Seq<SuggestionView>, token: Seq<char>)
    ensures
        forall|i: int|
            0 <= i < matching(candidates, token).len() ==> {
                &&& starts_with((#[trigger] matching(candidates, token)[i]).content, token)
                &&& candidates.contains(matching(candidates, token)[i])
            },
        forall|i: int|
            0 <= i < candidates.len() && starts_with((#[trigger] candidates[i]).content, token)
                ==> matching(candidates, token).contains(candidates[i]),
    decreases candidates.len(),
{
    if candidates.len() > 0 {
        let front = candidates.drop_last();
        let last = candidates.last();
        lemma_matching(front, token);
        let kept = matching(candidates, token);
        let before = matching(front, token);
        assert forall|i: int| 0 <= i < kept.len() implies {
            &&& starts_with((#[trigger] kept[i]).content, token)
            &&& candidates.contains(kept[i])
        } by {
            if i < before.len() {
                assert(kept[i] == before[i]);
                let w = choose|w: int| 0 <= w < front.len() && front[w] == before[i];
                assert(candidates[w] == front[w]);
            } else {
                assert(kept[i] == last);
                assert(candidates[candidates.len() - 1] == last);
            }
        }
        assert forall|i: int|
            0 <= i < candidates.len() && starts_with(
                (#[trigger] candidates[i]).content,
                token,
            ) implies kept.contains(candidates[i]) by {
            if i < front.len() {
                assert(front[i] == candidates[i]);
                let w = choose|w: int| 0 <= w < before.len() && before[w] == front[i];
                assert(kept[w] == before[w]);
            } else {
                assert(kept[kept.len() - 1] == last);
            }
        }
    }
}

/// The candidates for the arguments from index `from` on, read from `text` at
/// `cursor`. Each argument's suggester reads the argument's text; whitespace
/// is skipped, but for a lone trailing space. The first argument that leaves
/// nothing to read gives the candidates. An argument behind which text is
/// left gives none, and neither does a walk that runs out of arguments.
pub open spec fn argument_candidates(
    args: Seq<CommandArgument>,
    sender: Sender,
    text: Seq<char>,
    cursor: int,
    from: int,
) -> Seq<SuggestionView>
    decreases args.len() - from,
{
    if 0 <= from < args.len() {
        let suggested = args[from].suggester.suggested(sender, text, cursor);
        let after = whitespace_skipped(text, suggested.cursor, u32::MAX as int, true);
        if after >= text.len() {
            suggested.candidates
        } else {
            argument_candidates(args, sender, text, after, from + 1)
        }
    } else {
        Seq::empty()
    }
}

/// The candidates for a line before they are filtered.
///
/// Without a command for the line: the names of all literals of the graph,
/// in ascending order of length. With one: the literals directly below the
/// command's node; if there are none, the candidates of its arguments.
pub open spec fn candidates<E>(registry: &Registry<E>, text: Seq<char>, sender: Sender) -> Seq<
    SuggestionView,
> {
    match registry.lookup(tokens(strip_slash(text))) {
        None => plain(
            sorted_by_length(
                literal_names(registry.graph.nodes@, indices(registry.graph.nodes@.len())),
            ),
        ),
        Some(k) => {
            let home = registry.homes@[k] as int;
            let below = literal_names(
                registry.graph.nodes@,
                registry.graph.nodes@[home].children@,
            );
            if below.len() > 0 {
                plain(below)
            } else {
                argument_candidates(
                    registry.commands@[k].args@,
                    sender,
                    argument_text(text, registry.commands@[k].name@),
                    0,
                    0,
                )
            }
        },
    }
}

/// The suggestions for a line and the token that they complete: nothing for
/// an empty line; else the candidates that begin with the last token of the
/// line, and that token.
pub open spec fn suggestions_for<E>(registry: &Registry<E>, text: Seq<char>, sender: Sender) -> (
    Seq<SuggestionView>,
    Seq<char>,
) {
    if text.len() == 0 {
        (Seq::empty(), Seq::empty())
    } else {
        (matching(candidates(registry, text, sender), last_token(text)), last_token(text))
    }
}

/// The names as suggestions without tooltips.
pub fn suggestions_of(names: Vec<String>) -> (r: Vec<Suggestion>)
    ensures
        suggestion_views(r@) == plain(texts(names@)),
{
    let mut out: Vec<Suggestion> = Vec::new();
    let mut i: usize = 0;
    while i < names.len()
        invariant
            i <= names@.len(),
            out@.len() == i,
            forall|j: int|
                0 <= j < i ==> (#[trigger] out@[j])@ == (SuggestionView {
                    content: names@[j]@,
                    tooltip: None,
                }),
        decreases names@.len() - i,
    {
        out.push(Suggestion::of(names[i].clone()));
        i += 1;
    }
    proof {
        assert(suggestion_views(out@) =~= plain(texts(names@)));
    }
    out
}

/// The candidates whose content begins with `token`, in order.
pub fn filter_matching(list: &Vec<Suggestion>, token: &str) -> (r: Vec<Suggestion>)
    ensures
        suggestion_views(r@) == matching(suggestion_views(list@), token@),
{
    let mut out: Vec<Suggestion> = Vec::new();
    let mut i: usize = 0;
    let ghost all = suggestion_views(list@);
    proof {
        assert(all.subrange(0, 0) == Seq::<SuggestionView>::empty());
        assert(suggestion_views(out@) == Seq::<SuggestionView>::empty());
    }
    while i < list.len()
        invariant
            i <= list@.len(),
            all == suggestion_views(list@),
            suggestion_views(out@) == matching(all.subrange(0, i as int), token@),
        decreases list@.len() - i,
    {
        proof {
            assert(all.subrange(0, i + 1).drop_last() == all.subrange(0, i as int));
            assert(all.subrange(0, i + 1).last() == list@[i as int]@);
        }
        if has_prefix(list[i].content.as_str(), token) {
            let ghost before = suggestion_views(out@);
            out.push(list[i].clone());
            proof {
                assert(suggestion_views(out@) == before.push(list@[i as int]@));
            }
        }
        i += 1;
    }
    proof {
        assert(all.subrange(0, list@.len() as int) == all);
    }
    out
}

/// Looks up the command for a line as completion does: by its exact name,
/// then by the graph, and if both fail, again and again on the line cut at
/// its last whitespace, until a command is found or nothing is left to cut.
///
/// The result is the most specific command whose literal path is a prefix of
/// the line's tokens: cutting the line never finds a command that the whole
/// line does not select.
pub fn find_command<E>(registry: &Registry<E>, input: &str) -> (r: Option<usize>)
    requires
        registry.wf(),
    ensures
        match r {
            Some(k) => registry.lookup(tokens(strip_slash(input@))) == Some(k as int),
            None => registry.lookup(tokens(strip_slash(input@))) is None,
        },
        r matches Some(k) ==> k < registry.commands@.len(),
{
    let line = without_slash(input);
    match registry.index_by_name(line) {
        Some(k) => {
            proof {
                registry.lemma_exact_name(k as int);
            }
            return Some(k);
        },
        None => {},
    }
    match registry.find_index(line) {
        Some(k) => {
            return Some(k);
        },
        None => {},
    }
    let mut len = line.unicode_len();
    proof {
        registry.lemma_lookup_found(tokens(line@));
        assert(line@.subrange(0, len as int) == line@);
    }
    while len > 0
        invariant
            registry.wf(),
            len <= line@.len(),
            forall|j: int| !registry.selects(j, tokens(line@.subrange(0, len as int))),
        decreases len,
    {
        // The last whitespace of what is left of the line.
        let mut pos = len;
        while pos > 0 && !line.get_char(pos - 1).is_whitespace()
            invariant
                pos <= len <= line@.len(),
            decreases pos,
        {
            pos -= 1;
        }
        if pos == 0 {
            break ;
        }
        let cut = pos - 1;
        let shorter = line.substring_char(0, cut);
        proof {
            let whole = line@.subrange(0, len as int);
            assert(whole.subrange(0, cut as int) == shorter@);
            lemma_tokens_cut(whole, cut as int);
            assert forall|j: int| !registry.selects(j, tokens(shorter@)) by {
                if registry.selects(j, tokens(shorter@)) {
                    let path = registry.literal_path(j);
                    assert(tokens(whole).subrange(0, path.len() as int) == tokens(
                        shorter@,
                    ).subrange(0, path.len() as int));
                    assert(registry.selects(j, tokens(whole)));
                }
            }
        }
        match registry.index_by_name(shorter) {
            Some(k) => {
                proof {
                    registry.lemma_exact_name(k as int);
                    registry.lemma_lookup_found(tokens(shorter@));
                }
                return Some(k);
            },
            None => {},
        }
        match registry.find_index(shorter) {
            Some(k) => {
                proof {
                    registry.lemma_lookup_found(tokens(shorter@));
                }
                return Some(k);
            },
            None => {},
        }
        len = cut;
    }
    proof {
        registry.lemma_lookup_found(tokens(line@));
    }
    None
}

/// The completion candidates for the line `input` as `sender` types it, and
/// the token that they complete.
///
/// An empty line has no suggestions. Otherwise the candidates are those of
/// [`candidates`], kept where their content begins with the last token of the
/// line. The caller replaces that token: it starts at the length of the line
/// less the length of the token.
///
/// Nothing is executed and nothing changes: calling again with the same
/// registry, line and sender gives the same result.
pub fn command_suggestions<E>(registry: &Registry<E>, input: &str, sender: Sender) -> (r: (
    Vec<Suggestion>,
    String,
))
    requires
        registry.wf(),
        input@.len() <= u32::MAX,
    ensures
        suggestion_views(r.0@) == suggestions_for(registry, input@, sender).0,
        r.1@ == suggestions_for(registry, input@, sender).1,
{
    if input.unicode_len() == 0 {
        proof {
            assert(suggestion_views(Seq::<Suggestion>::empty()) == Seq::<SuggestionView>::empty());
        }
        return (Vec::new(), String::new());
    }
    let token = current_token(input);
    let found: Vec<Suggestion> = match find_command(registry, input) {
        None => suggestions_of(sort_by_length(registry.graph.literals())),
        Some(k) => {
            proof {
                assert(registry.housed(k as int));
            }
            let below = registry.graph.literal_children(registry.homes[k]);
            if below.len() > 0 {
                suggestions_of(below)
            } else {
                let command = registry.commands[k].clone();
                let mut ctx = create_ctx(input, command.clone(), sender);
                let ghost text = ctx.input.input@;
                let mut walked: Vec<Suggestion> = Vec::new();
                let mut i: usize = 0;
                proof {
                    assert(suggestion_views(walked@) == Seq::<SuggestionView>::empty());
                }
                while i < command.args.len()
                    invariant_except_break
                        suggestion_views(walked@) == Seq::<SuggestionView>::empty(),
                        argument_candidates(
                            command.args@,
                            sender,
                            text,
                            ctx.input.cursor as int,
                            i as int,
                        ) == argument_candidates(command.args@, sender, text, 0, 0),
                    invariant
                        i <= command.args@.len(),
                        ctx.input.wf(),
                        ctx.input.input@ == text,
                    ensures
                        suggestion_views(walked@) == argument_candidates(
                            command.args@,
                            sender,
                            text,
                            0,
                            0,
                        ),
                    decreases command.args@.len() - i,
                {
                    let proposed = command.args[i].suggester.suggest(sender, &mut ctx.input);
                    ctx.input.skip_whitespace(u32::MAX, true);
                    if !ctx.input.has_remaining_input() {
                        walked = proposed;
                        break ;
                    }
                    i += 1;
                }
                walked
            }
        },
    };
    (filter_matching(&found, token.as_str()), token)
}

/// The answer to a completion request: the matches in order, and the span of
/// the line that they replace, in characters.
pub struct CompletionResponse {
    pub matches: Vec<Suggestion>,
    /// Where the replaced token starts.
    pub start: usize,
    /// The length of the line.
    pub length: usize,
}

/// The answer to a request for completions of the line `input` of `sender`:
/// the suggestions for the line, the length of the line, and the start of the
/// token that the suggestions replace, which is the length of the line less
/// the length of that token.
pub fn completion_response<E>(registry: &Registry<E>, input: &str, sender: Sender) -> (r:
    CompletionResponse)
    requires
        registry.wf(),
        input@.len() <= u32::MAX,
    ensures
        suggestion_views(r.matches@) == suggestions_for(registry, input@, sender).0,
        r.length == input@.len(),
        r.start == input@.len() - suggestions_for(registry, input@, sender).1.len(),
        r.start == crate::text::last_token_start(input@),
{
    proof {
        crate::text::lemma_last_token_start(input@);
    }
    let (matches, token) = command_suggestions(registry, input, sender);
    let length = input.unicode_len();
    let start = length - token.as_str().unicode_len();
    CompletionResponse { matches, start, length }
}

/// What `command_suggestions` promises of its result.
pub open spec fn suggested_for<E>(
    registry: &Registry<E>,
    text: Seq<char>,
    sender: Sender,
    r: (Vec<Suggestion>, String),
) -> bool {
    &&& suggestion_views(r.0@) == suggestions_for(registry, text, sender).0
    &&& r.1@ == suggestions_for(registry, text, sender).1
}

/// Suggesting twice for the same line and sender against the same registry
/// gives the same candidates in the same order, and the same token.
pub proof fn lemma_suggestions_repeat<E>(
    registry: &Registry<E>,
    text: Seq<char>,
    sender: Sender,
    first: (Vec<Suggestion>, String),
    second: (Vec<Suggestion>, String),
)
    requires
        suggested_for(registry, text, sender, first),
        suggested_for(registry, text, sender, second),
    ensures
        suggestion_views(first.0@) == suggestion_views(second.0@),
        first.1@ == second.1@,
{
}

/// The token that suggestions complete is the last token of the line. Where
/// the command's name and whitespace precede the arguments, it is the last
/// token of the arguments as well: dropping the command from the line does
/// not change it.
pub proof fn lemma_token_of_stripped_line(command: Seq<char>, arguments: Seq<char>)
    requires
        command.len() > 0,
        crate::text::whitespace(command.last()),
    ensures
        last_token(command + arguments) == last_token(arguments),
{
    crate::text::lemma_last_token_behind(command, arguments);
}

/// The inline hint for a line typed at the console: what the first suggestion
/// adds to the token being typed. None where nothing is suggested.
pub fn console_hint<E>(registry: &Registry<E>, line: &str) -> (r: Option<String>)
    requires
        registry.wf(),
        line@.len() <= u32::MAX,
    ensures
        match r {
            Some(hint) => {
                &&& suggestions_for(registry, line@, Sender::Server).0.len() > 0
                &&& hint@ == crate::text::strip_prefix(
                    suggestions_for(registry, line@, Sender::Server).0[0].content,
                    suggestions_for(registry, line@, Sender::Server).1,
                )
            },
            None => suggestions_for(registry, line@, Sender::Server).0.len() == 0,
        },
{
    let (suggestions, token) = command_suggestions(registry, line, Sender::Server);
    if suggestions.len() == 0 {
        return None;
    }
    assert(suggestion_views(suggestions@)[0] == suggestions@[0]@);
    let content = suggestions[0].content.as_str();
    if has_prefix(content, token.as_str()) {
        Some(
            String::from_str(
                content.substring_char(token.as_str().unicode_len(), content.unicode_len()),
            ),
        )
    } else {
        Some(String::from_str(content))
    }
}

} // verus!
