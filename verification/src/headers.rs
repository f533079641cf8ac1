//! The headers that are added to each request.
//!
//! The key and the value of a header may name environment variables, as in
//! `Bearer $TOKEN`, which are substituted before the header is checked.
use vstd::prelude::*;

use crate::bep;
use crate::text;

verus! {

/// A header with its key and value. Both may name environment variables.
#[derive(Debug)]
pub struct HttpHeader {
    pub key: String,
    pub value: String,
}

/// An environment variable.
#[derive(Debug)]
pub struct EnvVar {
    pub name: String,
    pub value: String,
}

// Environment variables in a text

/// What names an environment variable: a dollar sign, then a letter or underscore, then
/// letters, digits and underscores.
pub const VARIABLE_PATTERN: &'static str = "\\$[a-zA-Z_][a-zA-Z_0-9]*";

/// Whether a character starts the name of a variable.
pub open spec fn is_name_start(c: char) -> bool {
    ('a' <= c && c <= 'z') || ('A' <= c && c <= 'Z') || c == '_'
}

/// Whether a character goes on the name of a variable.
pub open spec fn is_name_part(c: char) -> bool {
    is_name_start(c) || ('0' <= c && c <= '9')
}

/// Whether a variable is named at position `i`.
pub open spec fn is_variable_at(text: Seq<char>, i: int) -> bool {
    0 <= i && i + 1 < text.len() && text[i] == '$' && is_name_start(text[i + 1])
}

/// Where the name that goes on at position `i` ends.
pub open spec fn name_end(text: Seq<char>, i: int) -> int
    decreases text.len() - i,
{
    if 0 <= i < text.len() && is_name_part(text[i]) {
        name_end(text, i + 1)
    } else {
        i
    }
}

/// A name ends within its text.
proof fn lemma_name_end(text: Seq<char>, i: int)
    requires
        0 <= i <= text.len(),
    ensures
        i <= name_end(text, i) <= text.len(),
    decreases text.len() - i,
{
    if i < text.len() && is_name_part(text[i]) {
        lemma_name_end(text, i + 1);
    }
}

/// The variables that a text names from position `i` on, each with its position and its
/// end.
pub open spec fn variables(text: Seq<char>, i: int) -> Seq<(int, int)>
    decreases text.len() - i,
    via variables_end
{
    if i < 0 || i >= text.len() {
        Seq::empty()
    } else if is_variable_at(text, i) {
        seq![(i, name_end(text, i + 2))] + variables(text, name_end(text, i + 2))
    } else {
        variables(text, i + 1)
    }
}

#[via_fn]
proof fn variables_end(text: Seq<char>, i: int) {
    if is_variable_at(text, i) {
        lemma_name_end(text, i + 2);
    }
}

/// The positions of variables in bytes.
pub open spec fn in_bytes(text: Seq<char>, spans: Seq<(int, int)>) -> Seq<(int, int)> {
    spans.map_values(|s: (int, int)| (text::byte_offset(text, s.0), text::byte_offset(text, s.1)))
}

/// Pairs of machine numbers as numbers.
pub open spec fn as_numbers(spans: Seq<(usize, usize)>) -> Seq<(int, int)> {
    spans.map_values(|s: (usize, usize)| (s.0 as int, s.1 as int))
}

/// Finds where a pattern matches.
///
/// `regex::Regex::new` and `regex::Regex::find_iter`: the matches of
/// [`VARIABLE_PATTERN`], from left to right, each as long as can be and none within
/// another, with their byte positions.
#[verifier::external_body]
fn find_matches(pattern: &str, text: &str) -> (spans: Vec<(usize, usize)>)
    requires
        pattern@ == VARIABLE_PATTERN@,
    ensures
        as_numbers(spans@) == in_bytes(text@, variables(text@, 0)),
{
    regex::Regex::new(pattern)
        .unwrap()
        .find_iter(text)
        .map(|found| (found.start(), found.end()))
        .collect()
}

/// The value of a variable in an environment: that of its first binding.
pub open spec fn value_of(env: Seq<EnvVar>, name: Seq<char>) -> Option<Seq<char>>
    decreases env.len(),
{
    if env.len() == 0 {
        None
    } else if env[0].name@ == name {
        Some(env[0].value@)
    } else {
        value_of(env.drop_first(), name)
    }
}

/// A text before what becomes of the rest.
pub open spec fn followed(
    before: Seq<char>,
    rest: Result<Seq<char>, Seq<char>>,
) -> Result<Seq<char>, Seq<char>> {
    match rest {
        Ok(rest) => Ok(before + rest),
        Err(variable) => Err(variable),
    }
}

/// What becomes of a text from position `i` on when its variables are substituted, or
/// the first variable that has no value.
pub open spec fn substituted_from(text: Seq<char>, env: Seq<EnvVar>, i: int) -> Result<
    Seq<char>,
    Seq<char>,
>
    decreases text.len() - i,
    via substituted_end
{
    if i < 0 || i >= text.len() {
        Ok(Seq::empty())
    } else if is_variable_at(text, i) {
        let end = name_end(text, i + 2);
        match value_of(env, text.subrange(i + 1, end)) {
            Some(value) => followed(value, substituted_from(text, env, end)),
            None => Err(text.subrange(i, end)),
        }
    } else {
        followed(seq![text[i]], substituted_from(text, env, i + 1))
    }
}

#[via_fn]
proof fn substituted_end(text: Seq<char>, env: Seq<EnvVar>, i: int) {
    if is_variable_at(text, i) {
        lemma_name_end(text, i + 2);
    }
}

/// What becomes of a text when its variables are substituted, or the first variable that
/// has no value.
pub open spec fn substituted(text: Seq<char>, env: Seq<EnvVar>) -> Result<Seq<char>, Seq<char>> {
    substituted_from(text, env, 0)
}

/// Two texts before what becomes of the rest.
proof fn lemma_followed(a: Seq<char>, b: Seq<char>, rest: Result<Seq<char>, Seq<char>>)
    ensures
        followed(a, followed(b, rest)) == followed(a + b, rest),
{
    if let Ok(rest) = rest {
        assert(a + (b + rest) =~= (a + b) + rest);
    }
}

/// Up to the first variable, a text stays as it is.
proof fn lemma_next_variable(text: Seq<char>, env: Seq<EnvVar>, i: int)
    requires
        0 <= i <= text.len(),
    ensures
        ({
            let found = variables(text, i);
            if found.len() == 0 {
                substituted_from(text, env, i) == Ok::<Seq<char>, Seq<char>>(
                    text.subrange(i, text.len() as int),
                )
            } else {
                let (start, end) = found[0];
                &&& i <= start < start + 2 <= end <= text.len()
                &&& is_variable_at(text, start)
                &&& end == name_end(text, start + 2)
                &&& found.drop_first() == variables(text, end)
                &&& substituted_from(text, env, i) == followed(
                    text.subrange(i, start),
                    substituted_from(text, env, start),
                )
            }
        }),
    decreases text.len() - i,
{
    let n = text.len() as int;
    if i < n {
        if is_variable_at(text, i) {
            let end = name_end(text, i + 2);
            lemma_name_end(text, i + 2);
            assert(variables(text, i).drop_first() =~= variables(text, end));
            let rest = substituted_from(text, env, i);
            if let Ok(rest) = rest {
                assert(text.subrange(i, i) + rest =~= rest);
            }
        } else {
            lemma_next_variable(text, env, i + 1);
            let found = variables(text, i + 1);
            if found.len() == 0 {
                assert(seq![text[i]] + text.subrange(i + 1, n) =~= text.subrange(i, n));
            } else {
                let start = found[0].0;
                lemma_followed(
                    seq![text[i]],
                    text.subrange(i + 1, start),
                    substituted_from(text, env, start),
                );
                assert(seq![text[i]] + text.subrange(i + 1, start) =~= text.subrange(i, start));
            }
        }
    } else {
        assert(text.subrange(i, n) =~= Seq::empty());
    }
}

/// The value of a variable in an environment.
fn find_value<'a>(env: &'a Vec<EnvVar>, name: &str) -> (value: Option<&'a String>)
    ensures
        match value {
            Some(value) => value_of(env@, name@) == Some(value@),
            None => value_of(env@, name@) is None,
        },
{
    let wanted = name.to_owned();
    assert(env@.subrange(0, env@.len() as int) =~= env@);
    for i in 0..env.len()
        invariant
            wanted@ == name@,
            value_of(env@, name@) == value_of(env@.subrange(i as int, env@.len() as int), name@),
    {
        let ghost rest = env@.subrange(i as int, env@.len() as int);
        if env[i].name == wanted {
            assert(rest[0] == env@[i as int]);
            return Some(&env[i].value);
        }
        assert(rest.drop_first() =~= env@.subrange(i + 1, env@.len() as int));
    }
    None
}

/// What has been made of a text: `out` up to position `at`, from where the variables
/// `left` are left.
spec fn made_up_to(
    text: Seq<char>,
    env: Seq<EnvVar>,
    out: Seq<char>,
    at: int,
    left: Seq<(int, int)>,
) -> bool {
    &&& 0 <= at <= text.len()
    &&& left == variables(text, at)
    &&& substituted(text, env) == followed(out, substituted_from(text, env, at))
}

/// Replaces each `$NAME` in a text by the value of the environment variable `NAME`. The
/// error is the first `$NAME` that has no value.
pub fn substitute_env_vars(s: &str, env: &Vec<EnvVar>) -> (r: Result<String, String>)
    ensures
        match r {
            Ok(text) => substituted(s@, env@) == Ok::<Seq<char>, Seq<char>>(text@),
            Err(variable) => substituted(s@, env@) == Err::<Seq<char>, Seq<char>>(variable@),
        },
{
    let spans = find_matches(VARIABLE_PATTERN, s);
    let mut out = String::new();
    let mut last: usize = 0;
    let ghost all = variables(s@, 0);
    let ghost mut at: int = 0;
    proof {
        assert(spans@.len() == as_numbers(spans@).len());
        assert(out@ =~= Seq::empty());
        let whole = substituted(s@, env@);
        if let Ok(text) = whole {
            assert(out@ + text =~= text);
        }
        assert(s@.subrange(0, 0) =~= Seq::empty());
        assert(all.subrange(0, all.len() as int) =~= all);
    }
    for k in 0..spans.len()
        invariant
            all == variables(s@, 0),
            as_numbers(spans@) == in_bytes(s@, all),
            spans@.len() == all.len(),
            last == text::byte_offset(s@, at),
            made_up_to(s@, env@, out@, at, all.subrange(k as int, all.len() as int)),
    {
        let (start, end) = spans[k];
        let ghost left = all.subrange(k as int, all.len() as int);
        let ghost from = left[0].0;
        let ghost to = left[0].1;
        proof {
            lemma_next_variable(s@, env@, at);
            assert(left[0] == all[k as int]);
            assert(as_numbers(spans@)[k as int] == in_bytes(s@, all)[k as int]);
            assert(start == text::byte_offset(s@, from));
            assert(end == text::byte_offset(s@, to));
            lemma_followed(out@, s@.subrange(at, from), substituted_from(s@, env@, from));
        }
        out.append(text::slice(s, last, start, Ghost(at), Ghost(from)));
        let variable = text::slice(s, start, end, Ghost(from), Ghost(to));
        let name = without_dollar(variable);
        assert(name@ =~= s@.subrange(from + 1, to));
        match find_value(env, name) {
            Some(value) => {
                proof {
                    lemma_followed(out@, value@, substituted_from(s@, env@, to));
                }
                out.append(value.as_str());
            },
            None => {
                return Err(variable.to_owned());
            },
        }
        last = end;
        proof {
            at = to;
            assert(left.drop_first() =~= all.subrange(k + 1, all.len() as int));
        }
    }
    proof {
        assert(all.subrange(all.len() as int, all.len() as int) =~= Seq::empty());
        lemma_next_variable(s@, env@, at);
    }
    out.append(text::tail(s, last, Ghost(at)));
    Ok(out)
}

/// The name of a variable, without the dollar sign before it.
fn without_dollar(variable: &str) -> (name: &str)
    requires
        variable@.len() > 0,
        variable@[0] == '$',
    ensures
        name@ == variable@.subrange(1, variable@.len() as int),
{
    proof {
        assert(variable@.subrange(0, 1) =~= seq!['$']);
        assert(seq!['$'].drop_first() =~= Seq::empty());
        assert(vstd::utf8::encode_utf8(seq!['$']).len() == 1) by {
            reveal_with_fuel(vstd::utf8::encode_utf8, 2);
            assert(seq!['$'][0] == '$');
        }
    }
    text::tail(variable, 1, Ghost(1))
}

/// The names of variables in a text.
pub open spec fn names_in(text: Seq<char>, spans: Seq<(int, int)>) -> Seq<Seq<char>> {
    spans.map_values(|s: (int, int)| text.subrange(s.0 + 1, s.1))
}

/// The names of the variables that a text names, in order: those whose values a
/// substitution needs.
pub fn variable_names(s: &str) -> (names: Vec<String>)
    ensures
        bep::texts(names@) == names_in(s@, variables(s@, 0)),
{
    let spans = find_matches(VARIABLE_PATTERN, s);
    let mut names: Vec<String> = Vec::new();
    let ghost all = variables(s@, 0);
    let ghost mut at: int = 0;
    let ghost none = Seq::<EnvVar>::empty();
    proof {
        assert(spans@.len() == as_numbers(spans@).len());
        assert(bep::texts(names@) =~= names_in(s@, all.subrange(0, 0)));
        assert(all.subrange(0, all.len() as int) =~= all);
    }
    for k in 0..spans.len()
        invariant
            all == variables(s@, 0),
            as_numbers(spans@) == in_bytes(s@, all),
            spans@.len() == all.len(),
            0 <= at <= s@.len(),
            all.subrange(k as int, all.len() as int) == variables(s@, at),
            bep::texts(names@) == names_in(s@, all.subrange(0, k as int)),
    {
        let (start, end) = spans[k];
        let ghost left = all.subrange(k as int, all.len() as int);
        let ghost from = left[0].0;
        let ghost to = left[0].1;
        proof {
            lemma_next_variable(s@, none, at);
            assert(left[0] == all[k as int]);
            assert(as_numbers(spans@)[k as int] == in_bytes(s@, all)[k as int]);
        }
        let variable = text::slice(s, start, end, Ghost(from), Ghost(to));
        let name = without_dollar(variable).to_owned();
        let ghost before = bep::texts(names@);
        names.push(name);
        proof {
            assert(name@ =~= s@.subrange(from + 1, to));
            assert(bep::texts(names@) =~= before.push(name@));
            assert(names_in(s@, all.subrange(0, k + 1)) =~= names_in(
                s@,
                all.subrange(0, k as int),
            ).push(name@));
            assert(left.drop_first() =~= all.subrange(k + 1, all.len() as int));
            at = to;
        }
    }
    names
}

/// The variables that are named from a position on decide what becomes of the text.
proof fn lemma_same_values(text: Seq<char>, a: Seq<EnvVar>, b: Seq<EnvVar>, i: int)
    requires
        0 <= i <= text.len(),
        forall|k: int|
            0 <= k < variables(text, i).len() ==> value_of(
                a,
                #[trigger] names_in(text, variables(text, i))[k],
            ) == value_of(b, names_in(text, variables(text, i))[k]),
    ensures
        substituted_from(text, a, i) == substituted_from(text, b, i),
    decreases text.len() - i,
{
    if i < text.len() {
        if is_variable_at(text, i) {
            let end = name_end(text, i + 2);
            lemma_name_end(text, i + 2);
            let all = variables(text, i);
            let rest = variables(text, end);
            assert(all.drop_first() =~= rest);
            assert(names_in(text, all)[0] == text.subrange(i + 1, end));
            assert forall|k: int| 0 <= k < rest.len() implies value_of(
                a,
                #[trigger] names_in(text, rest)[k],
            ) == value_of(b, names_in(text, rest)[k]) by {
                assert(rest[k] == all[k + 1]);
                assert(names_in(text, rest)[k] == names_in(text, all)[k + 1]);
            }
            lemma_same_values(text, a, b, end);
        } else {
            assert(variables(text, i) == variables(text, i + 1));
            lemma_same_values(text, a, b, i + 1);
        }
    }
}

/// Only the values of the variables that a text names decide what becomes of it.
pub proof fn law_only_named_variables_matter(text: Seq<char>, a: Seq<EnvVar>, b: Seq<EnvVar>)
    requires
        forall|k: int|
            0 <= k < variables(text, 0).len() ==> value_of(
                a,
                #[trigger] names_in(text, variables(text, 0))[k],
            ) == value_of(b, names_in(text, variables(text, 0))[k]),
    ensures
        substituted(text, a) == substituted(text, b),
{
    lemma_same_values(text, a, b, 0);
}

/// A text that names no variable stays as it is.
pub proof fn law_text_without_variables_is_kept(text: Seq<char>, env: Seq<EnvVar>)
    requires
        forall|i: int| !#[trigger] is_variable_at(text, i),
    ensures
        substituted(text, env) == Ok::<Seq<char>, Seq<char>>(text),
{
    lemma_next_variable(text, env, 0);
    if variables(text, 0).len() > 0 {
        assert(is_variable_at(text, variables(text, 0)[0].0));
    }
    assert(text.subrange(0, text.len() as int) =~= text);
}

/// What follows a part of a text ends the same names as it does alone.
proof fn lemma_name_end_shifts(before: Seq<char>, after: Seq<char>, i: int)
    requires
        0 <= i <= after.len(),
    ensures
        name_end(before + after, before.len() + i) == before.len() + name_end(after, i),
    decreases after.len() - i,
{
    if i < after.len() {
        assert((before + after)[before.len() + i] == after[i]);
        if is_name_part(after[i]) {
            lemma_name_end_shifts(before, after, i + 1);
        }
    }
}

/// What follows a part of a text is substituted as it is alone.
proof fn lemma_substitution_shifts(
    before: Seq<char>,
    after: Seq<char>,
    env: Seq<EnvVar>,
    i: int,
)
    requires
        0 <= i <= after.len(),
    ensures
        substituted_from(before + after, env, before.len() + i) == substituted_from(after, env, i),
    decreases after.len() - i,
{
    let text = before + after;
    let n = before.len() as int;
    if i < after.len() {
        assert(text[n + i] == after[i]);
        if i + 1 < after.len() {
            assert(text[n + i + 1] == after[i + 1]);
        }
        assert(is_variable_at(text, n + i) == is_variable_at(after, i));
        if is_variable_at(after, i) {
            lemma_name_end(after, i + 2);
            lemma_name_end_shifts(before, after, i + 2);
            let end = name_end(after, i + 2);
            assert(text.subrange(n + i + 1, n + end) =~= after.subrange(i + 1, end));
            assert(text.subrange(n + i, n + end) =~= after.subrange(i, end));
            lemma_substitution_shifts(before, after, env, end);
        } else {
            lemma_substitution_shifts(before, after, env, i + 1);
        }
    }
}

/// The characters before the first variable stay as they are.
proof fn lemma_skip(text: Seq<char>, env: Seq<EnvVar>, i: int, j: int)
    requires
        0 <= i <= j <= text.len(),
        forall|k: int| i <= k < j ==> !#[trigger] is_variable_at(text, k),
    ensures
        substituted_from(text, env, i) == followed(
            text.subrange(i, j),
            substituted_from(text, env, j),
        ),
    decreases j - i,
{
    let rest = substituted_from(text, env, j);
    if i < j {
        assert(!is_variable_at(text, i));
        lemma_skip(text, env, i + 1, j);
        lemma_followed(seq![text[i]], text.subrange(i + 1, j), rest);
        assert(seq![text[i]] + text.subrange(i + 1, j) =~= text.subrange(i, j));
    } else if let Ok(rest) = rest {
        assert(text.subrange(i, j) + rest =~= rest);
    }
}

/// The whole of a name ends where something else follows.
proof fn lemma_whole_name(before: Seq<char>, name: Seq<char>, after: Seq<char>, i: int)
    requires
        0 <= i <= name.len(),
        forall|k: int| 0 <= k < name.len() ==> is_name_part(#[trigger] name[k]),
        after.len() > 0 ==> !is_name_part(after[0]),
    ensures
        name_end(before + name + after, before.len() + i) == before.len() + name.len(),
    decreases name.len() - i,
{
    let text = before + name + after;
    let at = before.len() + i;
    if i < name.len() {
        assert(text[at] == name[i]);
        lemma_whole_name(before, name, after, i + 1);
    } else if after.len() > 0 {
        assert(text[at] == after[0]);
    }
}

/// The first variable of a text is replaced by its value, and what follows it is
/// substituted in turn; if the variable has no value, the substitution fails with it.
pub proof fn law_variable_is_replaced(
    before: Seq<char>,
    name: Seq<char>,
    after: Seq<char>,
    env: Seq<EnvVar>,
)
    requires
        forall|i: int| !#[trigger] is_variable_at(before, i),
        name.len() > 0,
        is_name_start(name[0]),
        forall|k: int| 0 <= k < name.len() ==> is_name_part(#[trigger] name[k]),
        after.len() > 0 ==> !is_name_part(after[0]),
    ensures
        substituted(before + seq!['$'] + name + after, env) == match value_of(env, name) {
            Some(value) => followed(before + value, substituted(after, env)),
            None => Err(seq!['$'] + name),
        },
{
    let head = before + seq!['$'];
    let text = head + name + after;
    let n = before.len() as int;
    let end = n + 1 + name.len();
    assert forall|k: int| 0 <= k < n implies !#[trigger] is_variable_at(text, k) by {
        assert(!is_variable_at(before, k));
        assert(text[k] == before[k]);
        if k + 1 < n {
            assert(text[k + 1] == before[k + 1]);
        } else {
            assert(text[k + 1] == '$');
        }
    }
    lemma_skip(text, env, 0, n);
    assert(text.subrange(0, n) =~= before);
    assert(text[n] == '$' && text[n + 1] == name[0]);
    lemma_whole_name(head, name, after, 1);
    assert(text.subrange(n + 1, end) =~= name);
    assert(text.subrange(n, end) =~= seq!['$'] + name);
    lemma_substitution_shifts(head + name, after, env, 0);
    if let Some(value) = value_of(env, name) {
        lemma_followed(before, value, substituted(after, env));
    }
}

// Checking headers

/// Whether a character may stand in the key of a header.
pub open spec fn is_key_char(c: char) -> bool {
    ||| 'a' <= c && c <= 'z'
    ||| 'A' <= c && c <= 'Z'
    ||| '0' <= c && c <= '9'
    ||| c == '!' || c == '#' || c == '$' || c == '%' || c == '&' || c == '\'' || c == '*'
    ||| c == '+' || c == '-' || c == '.' || c == '^' || c == '_' || c == '`' || c == '|'
    ||| c == '~'
}

/// The lower case of a character of a key.
pub open spec fn lower(c: char) -> char {
    if 'A' <= c && c <= 'Z' {
        (c as u32 + 32) as char
    } else {
        c
    }
}

/// A key in lower case.
pub open spec fn lowered(key: Seq<char>) -> Seq<char> {
    key.map_values(|c: char| lower(c))
}

/// The longest key.
pub const MAX_KEY_LENGTH: usize = 65535;

/// Whether a text ends with another.
pub open spec fn ends_with(s: Seq<char>, end: Seq<char>) -> bool {
    s.len() >= end.len() && s.subrange(s.len() - end.len(), s.len() as int) == end
}

/// Whether a text is a key of a header with a text for its value. Keys that end in
/// `-bin` are those of binary values.
pub open spec fn is_key(key: Seq<char>) -> bool {
    &&& 0 < key.len() <= MAX_KEY_LENGTH
    &&& forall|i: int| 0 <= i < key.len() ==> is_key_char(#[trigger] key[i])
    &&& !ends_with(lowered(key), seq!['-', 'b', 'i', 'n'])
}

/// Whether a text is the value of a header: whether it has no control characters but
/// tabs.
pub open spec fn is_value(value: Seq<char>) -> bool {
    forall|i: int|
        0 <= i < value.len() ==> #[trigger] value[i] == '\t' || (' ' <= value[i] && value[i]
            != '\u{7f}')
}

/// Checks the key of a header, and brings it into its usual form.
///
/// `tonic::metadata::MetadataKey::from_bytes`, for keys of texts: the key in lower case,
/// if the text is a key.
#[verifier::external_body]
fn metadata_key(key: &str) -> (r: Option<String>)
    ensures
        r is Some == is_key(key@),
        r matches Some(k) ==> k@ == lowered(key@),
{
    tonic::metadata::MetadataKey::<tonic::metadata::Ascii>::from_bytes(key.as_bytes())
        .ok()
        .map(|key| key.as_str().to_owned())
}

/// Checks the value of a header.
///
/// `tonic::metadata::MetadataValue::try_from`, for a text: it succeeds exactly where the
/// text is a value.
#[verifier::external_body]
fn is_metadata_value(value: &String) -> (b: bool)
    ensures
        b == is_value(value@),
{
    tonic::metadata::MetadataValue::<tonic::metadata::Ascii>::try_from(value).is_ok()
}

/// Why a header cannot be sent.
#[derive(Debug)]
pub enum HeaderError {
    /// A variable has no value.
    Substitution { variable: String },
    /// The key is none.
    InvalidKey { key: String, value: String },
    /// The value is none.
    InvalidValue { key: String, value: String },
}

/// What a [`HeaderError`] stands for.
pub enum HeaderErrorView {
    Substitution { variable: Seq<char> },
    InvalidKey { key: Seq<char>, value: Seq<char> },
    InvalidValue { key: Seq<char>, value: Seq<char> },
}

impl View for HeaderError {
    type V = HeaderErrorView;

    open spec fn view(&self) -> HeaderErrorView {
        match *self {
            HeaderError::Substitution { variable } => HeaderErrorView::Substitution {
                variable: variable@,
            },
            HeaderError::InvalidKey { key, value } => HeaderErrorView::InvalidKey {
                key: key@,
                value: value@,
            },
            HeaderError::InvalidValue { key, value } => HeaderErrorView::InvalidValue {
                key: key@,
                value: value@,
            },
        }
    }
}

/// What is told of an error.
pub open spec fn message_of(e: HeaderErrorView) -> Seq<char> {
    match e {
        HeaderErrorView::Substitution { variable } => "Error substituting `"@ + variable + "`"@,
        HeaderErrorView::InvalidKey { key, value } => "Invalid key in header: `"@ + key + ": "@
            + value + "`"@,
        HeaderErrorView::InvalidValue { key, value } => "Invalid value in header: `"@ + key
            + ": "@ + value + "`"@,
    }
}

impl HeaderError {
    /// What is told of the error.
    pub fn message(&self) -> (text: String)
        ensures
            text@ == message_of(self@),
    {
        match self {
            HeaderError::Substitution { variable } => {
                let mut text = "Error substituting `".to_owned();
                text.append(variable.as_str());
                text.append("`");
                text
            },
            HeaderError::InvalidKey { key, value } => {
                let mut text = "Invalid key in header: `".to_owned();
                text.append(key.as_str());
                text.append(": ");
                text.append(value.as_str());
                text.append("`");
                text
            },
            HeaderError::InvalidValue { key, value } => {
                let mut text = "Invalid value in header: `".to_owned();
                text.append(key.as_str());
                text.append(": ");
                text.append(value.as_str());
                text.append("`");
                text
            },
        }
    }
}

/// What is sent for a header, or why it cannot be sent.
pub open spec fn sent_header(header: HttpHeader, env: Seq<EnvVar>) -> Result<
    (Seq<char>, Seq<char>),
    HeaderErrorView,
> {
    match (substituted(header.key@, env), substituted(header.value@, env)) {
        (Err(variable), _) => Err(HeaderErrorView::Substitution { variable }),
        (_, Err(variable)) => Err(HeaderErrorView::Substitution { variable }),
        (Ok(key), Ok(value)) => {
            if !is_key(key) {
                Err(HeaderErrorView::InvalidKey { key, value })
            } else if !is_value(value) {
                Err(HeaderErrorView::InvalidValue { key: lowered(key), value })
            } else {
                Ok((lowered(key), value))
            }
        },
    }
}

/// What is sent for headers, or why the first that cannot be sent cannot.
pub open spec fn sent_headers(headers: Seq<HttpHeader>, env: Seq<EnvVar>) -> Result<
    Seq<(Seq<char>, Seq<char>)>,
    HeaderErrorView,
>
    decreases headers.len(),
{
    if headers.len() == 0 {
        Ok(Seq::empty())
    } else {
        match (sent_headers(headers.drop_last(), env), sent_header(headers.last(), env)) {
            (Err(e), _) => Err(e),
            (_, Err(e)) => Err(e),
            (Ok(before), Ok(header)) => Ok(before.push(header)),
        }
    }
}

/// What headers stand for.
pub open spec fn header_views(headers: Seq<HttpHeader>) -> Seq<(Seq<char>, Seq<char>)> {
    headers.map_values(|h: HttpHeader| (h.key@, h.value@))
}

/// What is sent for a header, or why it cannot be sent.
pub fn convert_header(header: &HttpHeader, env: &Vec<EnvVar>) -> (r: Result<
    HttpHeader,
    HeaderError,
>)
    ensures
        match r {
            Ok(h) => sent_header(*header, env@) == Ok::<
                (Seq<char>, Seq<char>),
                HeaderErrorView,
            >((h.key@, h.value@)),
            Err(e) => sent_header(*header, env@) == Err::<
                (Seq<char>, Seq<char>),
                HeaderErrorView,
            >(e@),
        },
{
    let key = match substitute_env_vars(header.key.as_str(), env) {
        Ok(key) => key,
        Err(variable) => return Err(HeaderError::Substitution { variable }),
    };
    let value = match substitute_env_vars(header.value.as_str(), env) {
        Ok(value) => value,
        Err(variable) => return Err(HeaderError::Substitution { variable }),
    };
    let key = match metadata_key(key.as_str()) {
        Some(key) => key,
        None => return Err(HeaderError::InvalidKey { key, value }),
    };
    if is_metadata_value(&value) {
        Ok(HttpHeader { key, value })
    } else {
        Err(HeaderError::InvalidValue { key, value })
    }
}

/// Adds headers to requests.
#[derive(Debug)]
pub struct InjectHeadersInterceptor {
    headers: Vec<HttpHeader>,
}

impl View for InjectHeadersInterceptor {
    type V = Seq<(Seq<char>, Seq<char>)>;

    closed spec fn view(&self) -> Seq<(Seq<char>, Seq<char>)> {
        header_views(self.headers@)
    }
}

/// One error ends the conversion of all headers that it stands among.
proof fn lemma_first_error(headers: Seq<HttpHeader>, env: Seq<EnvVar>, n: int)
    requires
        0 <= n <= headers.len(),
        sent_headers(headers.subrange(0, n), env) is Err,
    ensures
        sent_headers(headers, env) == sent_headers(headers.subrange(0, n), env),
    decreases headers.len(),
{
    if n < headers.len() {
        assert(headers.drop_last().subrange(0, n) =~= headers.subrange(0, n));
        lemma_first_error(headers.drop_last(), env, n);
    } else {
        assert(headers.subrange(0, n) =~= headers);
    }
}

impl InjectHeadersInterceptor {
    /// Adds `headers`, with the variables of `env` substituted.
    pub fn new(headers: &Vec<HttpHeader>, env: &Vec<EnvVar>) -> (r: Result<
        InjectHeadersInterceptor,
        HeaderError,
    >)
        ensures
            match r {
                Ok(interceptor) => sent_headers(headers@, env@) == Ok::<
                    Seq<(Seq<char>, Seq<char>)>,
                    HeaderErrorView,
                >(interceptor@),
                Err(e) => sent_headers(headers@, env@) == Err::<
                    Seq<(Seq<char>, Seq<char>)>,
                    HeaderErrorView,
                >(e@),
            },
    {
        let mut sent: Vec<HttpHeader> = Vec::new();
        assert(header_views(sent@) =~= Seq::empty());
        assert(headers@.subrange(0, 0) =~= Seq::empty());
        for i in 0..headers.len()
            invariant
                sent_headers(headers@.subrange(0, i as int), env@) == Ok::<
                    Seq<(Seq<char>, Seq<char>)>,
                    HeaderErrorView,
                >(header_views(sent@)),
        {
            let ghost now = headers@.subrange(0, i + 1);
            assert(now.drop_last() =~= headers@.subrange(0, i as int));
            assert(now.last() == headers@[i as int]);
            match convert_header(&headers[i], env) {
                Ok(header) => {
                    let ghost before = header_views(sent@);
                    sent.push(header);
                    assert(header_views(sent@) =~= before.push((header.key@, header.value@)));
                },
                Err(e) => {
                    proof {
                        lemma_first_error(headers@, env@, i + 1);
                    }
                    return Err(e);
                },
            }
        }
        assert(headers@.subrange(0, headers@.len() as int) =~= headers@);
        Ok(InjectHeadersInterceptor { headers: sent })
    }

    /// The headers that are added, in order.
    pub fn headers(&self) -> (headers: &Vec<HttpHeader>)
        ensures
            header_views(headers@) == self@,
    {
        &self.headers
    }
}

/// A header is sent for each header that was given, in order, or none is.
pub proof fn law_every_header_is_sent(headers: Seq<HttpHeader>, env: Seq<EnvVar>)
    ensures
        match sent_headers(headers, env) {
            Ok(sent) => {
                &&& sent.len() == headers.len()
                &&& forall|i: int|
                    0 <= i < headers.len() ==> sent_header(#[trigger] headers[i], env) == Ok::<
                        (Seq<char>, Seq<char>),
                        HeaderErrorView,
                    >(sent[i])
            },
            Err(e) => exists|i: int|
                {
                    &&& 0 <= i < headers.len()
                    &&& sent_header(#[trigger] headers[i], env) == Err::<
                        (Seq<char>, Seq<char>),
                        HeaderErrorView,
                    >(e)
                    &&& forall|j: int|
                        0 <= j < i ==> sent_header(#[trigger] headers[j], env) is Ok
                },
        },
    decreases headers.len(),
{
    if headers.len() > 0 {
        let rest = headers.drop_last();
        law_every_header_is_sent(rest, env);
        assert forall|i: int| 0 <= i < rest.len() implies #[trigger] headers[i] == rest[i] by {}
        match sent_headers(rest, env) {
            Ok(sent) => {
                assert(headers[headers.len() - 1] == headers.last());
                assert forall|i: int| 0 <= i < rest.len() implies sent_header(
                    #[trigger] headers[i],
                    env,
                ) is Ok by {
                    assert(headers[i] == rest[i]);
                }
            },
            Err(e) => {
                let i = choose|i: int|
                    {
                        &&& 0 <= i < rest.len()
                        &&& sent_header(#[trigger] rest[i], env) == Err::<
                            (Seq<char>, Seq<char>),
                            HeaderErrorView,
                        >(e)
                        &&& forall|j: int|
                            0 <= j < i ==> sent_header(#[trigger] rest[j], env) is Ok
                    };
                assert(headers[i] == rest[i]);
                assert forall|j: int| 0 <= j < i implies sent_header(
                    #[trigger] headers[j],
                    env,
                ) is Ok by {
                    assert(headers[j] == rest[j]);
                }
            },
        }
    }
}

// What decides about a header

/// The value of a variable is that of its first binding, and a variable without a binding
/// has none.
pub proof fn law_first_binding_counts(env: Seq<EnvVar>, name: Seq<char>)
    ensures
        value_of(env, name) is None <==> forall|i: int|
            0 <= i < env.len() ==> (#[trigger] env[i]).name@ != name,
        forall|i: int|
            0 <= i < env.len() && (#[trigger] env[i]).name@ == name && (forall|j: int|
                0 <= j < i ==> (#[trigger] env[j]).name@ != name) ==> value_of(env, name) == Some(
                env[i].value@,
            ),
    decreases env.len(),
{
    if env.len() > 0 && env[0].name@ != name {
        let rest = env.drop_first();
        law_first_binding_counts(rest, name);
        assert forall|i: int| 0 <= i < rest.len() implies #[trigger] rest[i] == env[i + 1] by {}
        assert forall|i: int| 0 < i < env.len() implies #[trigger] env[i] == rest[i - 1] by {}
        assert(value_of(env, name) == value_of(rest, name));
        if value_of(env, name) is None {
            assert forall|i: int| 0 <= i < env.len() implies (#[trigger] env[i]).name@ != name by {
                if i > 0 {
                    assert(rest[i - 1].name@ != name);
                }
            }
        }
        if forall|i: int| 0 <= i < env.len() ==> (#[trigger] env[i]).name@ != name {
            assert forall|i: int| 0 <= i < rest.len() implies (
            #[trigger] rest[i]).name@ != name by {
                assert(env[i + 1].name@ != name);
            }
        }
        assert forall|i: int|
            0 <= i < env.len() && (#[trigger] env[i]).name@ == name && (forall|j: int|
                0 <= j < i ==> (#[trigger] env[j]).name@ != name) implies value_of(env, name)
            == Some(env[i].value@) by {
            assert(i > 0);
            assert(rest[i - 1].name@ == name);
            assert forall|j: int| 0 <= j < i - 1 implies (#[trigger] rest[j]).name@ != name by {
                assert(env[j + 1].name@ != name);
            }
        }
    }
}

/// A variable is named where a dollar sign stands before a letter or an underscore, and
/// its name goes on as long as letters, digits and underscores do.
pub proof fn law_names_are_letters_digits_and_underscores(text: Seq<char>, i: int)
    ensures
        is_variable_at(text, i) <==> {
            &&& 0 <= i && i + 1 < text.len()
            &&& text[i] == '$'
            &&& ('a' <= text[i + 1] && text[i + 1] <= 'z') || ('A' <= text[i + 1] && text[i + 1]
                <= 'Z') || text[i + 1] == '_'
        },
        0 <= i <= text.len() ==> {
            let end = name_end(text, i);
            let goes_on = |k: int|
                ('a' <= text[k] && text[k] <= 'z') || ('A' <= text[k] && text[k] <= 'Z') || text[k]
                    == '_' || ('0' <= text[k] && text[k] <= '9');
            &&& i <= end <= text.len()
            &&& forall|k: int| i <= k < end ==> #[trigger] goes_on(k)
            &&& end < text.len() ==> !goes_on(end)
        },
    decreases text.len() - i,
{
    if 0 <= i < text.len() && is_name_part(text[i]) {
        law_names_are_letters_digits_and_underscores(text, i + 1);
        let end = name_end(text, i);
        assert(end == name_end(text, i + 1));
        let goes_on = |k: int|
            ('a' <= text[k] && text[k] <= 'z') || ('A' <= text[k] && text[k] <= 'Z') || text[k]
                == '_' || ('0' <= text[k] && text[k] <= '9');
        assert(goes_on(i));
    }
}

/// What follows a part of a text names the same variables as it does alone.
proof fn lemma_variables_shift(before: Seq<char>, after: Seq<char>, i: int)
    requires
        0 <= i <= after.len(),
    ensures
        names_in(before + after, variables(before + after, before.len() + i)) == names_in(
            after,
            variables(after, i),
        ),
    decreases after.len() - i,
{
    let text = before + after;
    let n = before.len() as int;
    if i < after.len() {
        assert(text[n + i] == after[i]);
        if i + 1 < after.len() {
            assert(text[n + i + 1] == after[i + 1]);
        }
        assert(is_variable_at(text, n + i) == is_variable_at(after, i));
        if is_variable_at(after, i) {
            lemma_name_end(after, i + 2);
            lemma_name_end_shifts(before, after, i + 2);
            let end = name_end(after, i + 2);
            assert(text.subrange(n + i + 1, n + end) =~= after.subrange(i + 1, end));
            lemma_variables_shift(before, after, end);
            let rest = variables(text, n + end);
            let others = variables(after, end);
            assert(variables(text, n + i) == seq![(n + i, n + end)] + rest);
            assert(variables(after, i) == seq![(i, end)] + others);
            assert(names_in(text, variables(text, n + i)) =~= seq![after.subrange(i + 1, end)]
                + names_in(text, rest));
            assert(names_in(after, variables(after, i)) =~= seq![after.subrange(i + 1, end)]
                + names_in(after, others));
        } else {
            assert(variables(text, n + i) == variables(text, n + i + 1));
            assert(variables(after, i) == variables(after, i + 1));
            lemma_variables_shift(before, after, i + 1);
        }
    } else {
        assert(names_in(text, variables(text, n + i)) =~= names_in(after, variables(after, i)));
    }
}

/// Up to the first variable none is named.
proof fn lemma_skip_names(text: Seq<char>, i: int, j: int)
    requires
        0 <= i <= j <= text.len(),
        forall|k: int| i <= k < j ==> !#[trigger] is_variable_at(text, k),
    ensures
        variables(text, i) == variables(text, j),
    decreases j - i,
{
    if i < j {
        assert(!is_variable_at(text, i));
        lemma_skip_names(text, i + 1, j);
    }
}

/// The names that a text holds are that of its first variable and then those of what
/// follows it; a text without variables holds none.
pub proof fn law_names_are_found_in_order(
    before: Seq<char>,
    name: Seq<char>,
    after: Seq<char>,
)
    requires
        forall|i: int| !#[trigger] is_variable_at(before, i),
        name.len() > 0,
        is_name_start(name[0]),
        forall|k: int| 0 <= k < name.len() ==> is_name_part(#[trigger] name[k]),
        after.len() > 0 ==> !is_name_part(after[0]),
    ensures
        names_in(before, variables(before, 0)) == Seq::<Seq<char>>::empty(),
        ({
            let text = before + seq!['$'] + name + after;
            names_in(text, variables(text, 0)) == seq![name] + names_in(
                after,
                variables(after, 0),
            )
        }),
{
    let head = before + seq!['$'];
    let text = head + name + after;
    let n = before.len() as int;
    let end = n + 1 + name.len();
    assert forall|k: int| 0 <= k < n implies !#[trigger] is_variable_at(text, k) by {
        assert(!is_variable_at(before, k));
        assert(text[k] == before[k]);
        if k + 1 < n {
            assert(text[k + 1] == before[k + 1]);
        } else {
            assert(text[k + 1] == '$');
        }
    }
    lemma_skip_names(before, 0, n);
    assert(names_in(before, variables(before, 0)) =~= Seq::empty());
    lemma_skip_names(text, 0, n);
    assert(text[n] == '$' && text[n + 1] == name[0]);
    lemma_whole_name(head, name, after, 1);
    assert(text.subrange(n + 1, end) =~= name);
    lemma_variables_shift(head + name, after, 0);
    let rest = variables(text, end);
    assert(variables(text, n) == seq![(n, end)] + rest);
    assert(names_in(text, variables(text, n)) =~= seq![name] + names_in(text, rest));
}

/// The key of a header that is sent is in lower case: it differs from what was given only
/// in capital letters.
pub proof fn law_keys_are_sent_in_lower_case(key: Seq<char>)
    ensures
        lowered(key).len() == key.len(),
        forall|i: int|
            0 <= i < key.len() ==> {
                if 'A' <= key[i] && key[i] <= 'Z' {
                    #[trigger] lowered(key)[i] as int == key[i] as int + 32
                } else {
                    lowered(key)[i] == key[i]
                }
            },
{
}

/// A header is sent with its key in lower case and its value, variables substituted. It is
/// not sent where a variable has no value, the key before the value; where the key is none;
/// or where the value is none.
pub proof fn law_headers_are_checked(header: HttpHeader, env: Seq<EnvVar>)
    ensures
        match substituted(header.key@, env) {
            Err(variable) => sent_header(header, env) == Err::<
                (Seq<char>, Seq<char>),
                HeaderErrorView,
            >(HeaderErrorView::Substitution { variable }),
            Ok(key) => match substituted(header.value@, env) {
                Err(variable) => sent_header(header, env) == Err::<
                    (Seq<char>, Seq<char>),
                    HeaderErrorView,
                >(HeaderErrorView::Substitution { variable }),
                Ok(value) => {
                    let is_sent = is_key(key) && is_value(value);
                    &&& sent_header(header, env) is Ok <==> is_sent
                    &&& is_sent ==> sent_header(header, env) == Ok::<
                        (Seq<char>, Seq<char>),
                        HeaderErrorView,
                    >((lowered(key), value))
                    &&& !is_key(key) ==> sent_header(header, env) == Err::<
                        (Seq<char>, Seq<char>),
                        HeaderErrorView,
                    >(HeaderErrorView::InvalidKey { key, value })
                    &&& is_key(key) && !is_value(value) ==> sent_header(header, env) == Err::<
                        (Seq<char>, Seq<char>),
                        HeaderErrorView,
                    >(HeaderErrorView::InvalidValue { key: lowered(key), value })
                },
            },
        },
{
}

/// A text is a key exactly if it is not empty nor too long, holds only letters, digits and
/// certain signs, and does not end in `-bin`, in whatever case.
pub proof fn law_keys_are_letters_digits_and_signs(key: Seq<char>)
    ensures
        is_key(key) <==> {
            &&& 0 < key.len() <= 65535
            &&& forall|i: int|
                0 <= i < key.len() ==> {
                    ||| 'a' <= #[trigger] key[i] && key[i] <= 'z'
                    ||| 'A' <= key[i] && key[i] <= 'Z'
                    ||| '0' <= key[i] && key[i] <= '9'
                    ||| seq![
                        '!',
                        '#',
                        '$',
                        '%',
                        '&',
                        '\'',
                        '*',
                        '+',
                        '-',
                        '.',
                        '^',
                        '_',
                        '`',
                        '|',
                        '~',
                    ].contains(key[i])
                }
            &&& !(key.len() >= 4 && key[key.len() - 4] == '-' && (key[key.len() - 3] == 'b'
                || key[key.len() - 3] == 'B') && (key[key.len() - 2] == 'i' || key[key.len() - 2]
                == 'I') && (key[key.len() - 1] == 'n' || key[key.len() - 1] == 'N'))
        },
{
    let n = key.len() as int;
    let signs = seq![
        '!', '#', '$', '%', '&', '\'', '*', '+', '-', '.', '^', '_', '`', '|', '~',
    ];
    assert forall|c: char| #[trigger] signs.contains(c) <==> c == '!' || c == '#' || c == '$' || c
        == '%' || c == '&' || c == '\'' || c == '*' || c == '+' || c == '-' || c == '.' || c == '^'
        || c == '_' || c == '`' || c == '|' || c == '~' by {
        assert(signs[0] == '!' && signs[1] == '#' && signs[2] == '$' && signs[3] == '%' && signs[4]
            == '&' && signs[5] == '\'' && signs[6] == '*' && signs[7] == '+' && signs[8] == '-'
            && signs[9] == '.' && signs[10] == '^' && signs[11] == '_' && signs[12] == '`'
            && signs[13] == '|' && signs[14] == '~');
    }
    if n >= 4 {
        let low = lowered(key);
        let end = low.subrange(n - 4, n);
        let bin = seq!['-', 'b', 'i', 'n'];
        assert(end[0] == low[n - 4] && end[1] == low[n - 3] && end[2] == low[n - 2] && end[3]
            == low[n - 1]);
        if end == bin {
            assert(end[0] == '-' && end[1] == 'b' && end[2] == 'i' && end[3] == 'n');
        }
        if low[n - 4] == '-' && low[n - 3] == 'b' && low[n - 2] == 'i' && low[n - 1] == 'n' {
            assert(end =~= bin);
        }
    }
}

/// What is told of an error holds what was found wrong: the variable, or the header as far
/// as it was made.
pub proof fn law_errors_tell_the_header(e: HeaderError)
    ensures
        match e {
            HeaderError::Substitution { variable } => message_of(e@) == "Error substituting `"@
                + variable@ + "`"@,
            HeaderError::InvalidKey { key, value } => message_of(e@)
                == "Invalid key in header: `"@ + key@ + ": "@ + value@ + "`"@,
            HeaderError::InvalidValue { key, value } => message_of(e@)
                == "Invalid value in header: `"@ + key@ + ": "@ + value@ + "`"@,
        },
{
}

/// A text is a value exactly if each of its characters is a tab, or is no control character
/// and not the one that deletes.
pub proof fn law_values_have_no_control_characters(value: Seq<char>)
    ensures
        is_value(value) <==> forall|i: int|
            0 <= i < value.len() ==> #[trigger] value[i] as int == 9 || (value[i] as int >= 32
                && value[i] as int != 127),
{
    if is_value(value) {
        assert forall|i: int| 0 <= i < value.len() implies #[trigger] value[i] as int == 9 || (
        value[i] as int >= 32 && value[i] as int != 127) by {
            assert(value[i] == '\t' || (' ' <= value[i] && value[i] != '\u{7f}'));
        }
    }
}

/// What an error stands for keeps all of it.
pub proof fn law_header_errors_are_seen_whole(e: HeaderError)
    ensures
        match e {
            HeaderError::Substitution { variable: v } => e@ matches HeaderErrorView::Substitution {
                variable,
            } && variable == v@,
            HeaderError::InvalidKey { key: k, value: v } => e@
                matches HeaderErrorView::InvalidKey { key, value } && key == k@ && value == v@,
            HeaderError::InvalidValue { key: k, value: v } => e@
                matches HeaderErrorView::InvalidValue { key, value } && key == k@ && value == v@,
        },
{
}

/// What headers stand for keeps the key and the value of each, in order.
pub proof fn law_headers_are_seen_whole(headers: Seq<HttpHeader>)
    ensures
        header_views(headers).len() == headers.len(),
        forall|i: int|
            0 <= i < headers.len() ==> (#[trigger] header_views(headers)[i]).0 == headers[i].key@
                && header_views(headers)[i].1 == headers[i].value@,
{
}

/// The pattern that is matched is the one whose matches are told: a dollar sign, a letter
/// or underscore, and as many letters, digits and underscores as follow.
pub proof fn law_pattern_is_that_of_variables()
    ensures
        VARIABLE_PATTERN@ == "\\$[a-zA-Z_][a-zA-Z_0-9]*"@,
{
}

} // verus!
