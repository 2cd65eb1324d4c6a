//! The client's command line: `get KEY`, `remove KEY`, `add KEY VALUE`,
//! `update KEY VALUE`, and `exit` or `quit`.
use crate::order::{compare_bytes, lemma_utf8_injective, Cmp};
use crate::protocol::OP;
use vstd::prelude::*;
use vstd::string::{StrSliceExecFns, StringSliceAdditionalSpecFns};

verus! {

broadcast use vstd::string::group_string_axioms;

/// Whether `c` has the Unicode `White_Space` property.
pub open spec fn is_white_space(c: char) -> bool {
    let u = c as u32;
    ||| 0x09 <= u <= 0x0D
    ||| u == 0x20
    ||| u == 0x85
    ||| u == 0xA0
    ||| u == 0x1680
    ||| 0x2000 <= u <= 0x200A
    ||| u == 0x2028
    ||| u == 0x2029
    ||| u == 0x202F
    ||| u == 0x205F
    ||| u == 0x3000
}

/// Calls `char::is_whitespace`. Trusted: std documents it as the Unicode
/// `White_Space` property, whose code points are listed above.
#[verifier::external_body]
fn char_is_whitespace(c: char) -> (r: bool)
    ensures
        r == is_white_space(c),
{
    c.is_whitespace()
}

/// The maximal runs of non-whitespace characters of `s`, in order.
pub open spec fn tokens(s: Seq<char>) -> Seq<Seq<char>>
    decreases s.len(),
{
    if s.len() == 0 {
        Seq::empty()
    } else {
        let t = tokens(s.drop_last());
        let c = s.last();
        if is_white_space(c) {
            t
        } else if s.len() >= 2 && !is_white_space(s[s.len() - 2]) {
            t.update(t.len() - 1, t.last().push(c))
        } else {
            t.push(seq![c])
        }
    }
}

/// The characters of `s` that are not whitespace, in order.
pub open spec fn without_white_space(s: Seq<char>) -> Seq<char>
    decreases s.len(),
{
    if s.len() == 0 {
        Seq::empty()
    } else if is_white_space(s.last()) {
        without_white_space(s.drop_last())
    } else {
        without_white_space(s.drop_last()).push(s.last())
    }
}

/// The words of `t` written one after another.
pub open spec fn joined(t: Seq<Seq<char>>) -> Seq<char>
    decreases t.len(),
{
    if t.len() == 0 {
        Seq::empty()
    } else {
        joined(t.drop_last()) + t.last()
    }
}

/// How many positions of `s` start a word: a character that is not
/// whitespace, at the start of `s` or right after whitespace.
pub open spec fn word_starts(s: Seq<char>) -> nat {
    Set::new(
        |i: int|
            0 <= i < s.len() && !is_white_space(s[i]) && (i == 0 || is_white_space(s[i - 1])),
    ).len()
}

/// The set of word starts of `s`.
spec fn start_set(s: Seq<char>) -> Set<int> {
    Set::new(
        |i: int|
            0 <= i < s.len() && !is_white_space(s[i]) && (i == 0 || is_white_space(s[i - 1])),
    )
}

proof fn lemma_start_set_step(s: Seq<char>)
    requires
        s.len() > 0,
    ensures
        start_set(s.drop_last()).finite(),
        start_set(s).finite(),
        start_set(s) == if !is_white_space(s.last()) && (s.len() == 1 || is_white_space(
            s[s.len() - 2],
        )) {
            start_set(s.drop_last()).insert(s.len() - 1)
        } else {
            start_set(s.drop_last())
        },
        !start_set(s.drop_last()).contains(s.len() - 1),
    decreases s.len(),
{
    let p = s.drop_last();
    assert(start_set(p).subset_of(Set::new(|i: int| 0 <= i < p.len())));
    vstd::set_lib::lemma_int_range(0, p.len() as int);
    assert(Set::new(|i: int| 0 <= i < p.len()) =~= vstd::set_lib::set_int_range(0, p.len() as int));
    vstd::set_lib::lemma_len_subset(start_set(p), vstd::set_lib::set_int_range(0, p.len() as int));
    if !is_white_space(s.last()) && (s.len() == 1 || is_white_space(s[s.len() - 2])) {
        assert(start_set(s) =~= start_set(p).insert(s.len() - 1));
    } else {
        assert(start_set(s) =~= start_set(p));
    }
}

/// What splitting at whitespace keeps: every word is a non-empty run of
/// characters that are not whitespace; the words, written one after
/// another, are the line with its whitespace taken out; and there are as
/// many words as positions where a word starts, so no run of characters is
/// cut in two and no run is dropped.
pub proof fn lemma_tokens_are_the_words(s: Seq<char>)
    ensures
        forall|i: int|
            0 <= i < tokens(s).len() ==> #[trigger] tokens(s)[i].len() > 0 && forall|j: int|
                0 <= j < tokens(s)[i].len() ==> !is_white_space(tokens(s)[i][j]),
        joined(tokens(s)) == without_white_space(s),
        tokens(s).len() == word_starts(s),
    decreases s.len(),
{
    if s.len() == 0 {
        assert(start_set(s) =~= Set::<int>::empty());
    } else {
        let p = s.drop_last();
        let c = s.last();
        let t = tokens(p);
        lemma_tokens_are_the_words(p);
        lemma_start_set_step(s);
        if is_white_space(c) {
        } else if s.len() >= 2 && !is_white_space(s[s.len() - 2]) {
            assert(p.last() == s[s.len() - 2]);
            lemma_last_word(p);
            let u = t.update(t.len() - 1, t.last().push(c));
            assert(u.drop_last() =~= t.drop_last());
            assert(joined(u) =~= joined(t).push(c));
            assert forall|i: int| 0 <= i < u.len() implies #[trigger] u[i].len() > 0 && forall|
                j: int,
            | 0 <= j < u[i].len() ==> !is_white_space(u[i][j]) by {
                if i == u.len() - 1 {
                    assert forall|j: int| 0 <= j < u[i].len() implies !is_white_space(
                        u[i][j],
                    ) by {
                        if j < t.last().len() {
                            assert(u[i][j] == t[t.len() - 1][j]);
                        }
                    }
                } else {
                    assert(u[i] == t[i]);
                }
            }
        } else {
            let u = t.push(seq![c]);
            assert(u.drop_last() =~= t);
            assert(joined(u) =~= joined(t).push(c));
            assert forall|i: int| 0 <= i < u.len() implies #[trigger] u[i].len() > 0 && forall|
                j: int,
            | 0 <= j < u[i].len() ==> !is_white_space(u[i][j]) by {
                if i < t.len() {
                    assert(u[i] == t[i]);
                }
            }
        }
    }
}

/// A line whose last character is not whitespace has a word.
proof fn lemma_last_word(s: Seq<char>)
    requires
        s.len() > 0,
        !is_white_space(s.last()),
    ensures
        tokens(s).len() > 0,
    decreases s.len(),
{
    let p = s.drop_last();
    if s.len() >= 2 && !is_white_space(s[s.len() - 2]) {
        assert(p.last() == s[s.len() - 2]);
        lemma_last_word(p);
    }
}

/// The character spans `(start, end)` of the tokens of `s`.
spec fn spans_text(s: Seq<char>, spans: Seq<(usize, usize)>) -> Seq<Seq<char>> {
    spans.map_values(|p: (usize, usize)| s.subrange(p.0 as int, p.1 as int))
}

/// Splits `line` at whitespace, as `str::split_whitespace` does.
fn split_tokens(line: &str) -> (r: Vec<String>)
    ensures
        r@.map_values(|t: String| t@) == tokens(line@),
{
    let ghost s = line@;
    let n = line.unicode_len();
    let mut spans: Vec<(usize, usize)> = Vec::new();
    let mut start: usize = 0;
    let mut in_token = false;
    let mut i: usize = 0;
    proof {
        assert(spans_text(s, spans@) =~= Seq::<Seq<char>>::empty());
        assert(s.subrange(0, 0) =~= Seq::<char>::empty());
    }
    for c in it: line.chars()
        invariant
            s == line@,
            n == s.len(),
            it.seq() == s,
            i == it.index(),
            i <= s.len(),
            in_token ==> start < i,
            in_token <==> i > 0 && !is_white_space(s[i - 1]),
            forall|j: int| 0 <= j < spans@.len() ==> #[trigger] spans@[j].0 <= spans@[j].1,
            forall|j: int| 0 <= j < spans@.len() ==> #[trigger] spans@[j].1 <= i,
            in_token ==> forall|j: int| 0 <= j < spans@.len() ==> #[trigger] spans@[j].1 <= start,
            spans_text(s, spans@) + (if in_token {
                seq![s.subrange(start as int, i as int)]
            } else {
                Seq::empty()
            }) == tokens(s.subrange(0, i as int)),
    {
        let ghost prefix = s.subrange(0, i as int);
        let ghost old_spans = spans@;
        let ghost was_in = in_token;
        let ghost old_start = start;
        let ghost old_i = i;
        let ghost t = tokens(prefix);
        assert(c == s[i as int]);
        let ws = char_is_whitespace(c);
        if ws {
            if in_token {
                spans.push((start, i));
                in_token = false;
            }
        } else if !in_token {
            start = i;
            in_token = true;
        }
        proof {
            let next = s.subrange(0, i + 1);
            assert(next.drop_last() =~= prefix);
            assert(next.last() == c);
            if ws {
                if was_in {
                    assert(spans_text(s, spans@) =~= spans_text(s, old_spans).push(
                        s.subrange(start as int, i as int),
                    ));
                }
                assert(tokens(next) == t);
            } else if was_in {
                assert(i >= 1);
                assert(next[next.len() - 2] == s[i - 1]);
                assert(s.subrange(start as int, i + 1) =~= s.subrange(start as int, i as int).push(c));
                assert(spans_text(s, spans@) + seq![s.subrange(start as int, i + 1)] =~= t.update(
                    t.len() - 1,
                    t.last().push(c),
                ));
            } else {
                assert(s.subrange(i as int, i + 1) =~= seq![c]);
                assert(spans_text(s, spans@) + seq![s.subrange(start as int, i + 1)] =~= t.push(
                    seq![c],
                ));
            }
        }
        i += 1;
    }
    proof {
        assert(s.subrange(0, i as int) =~= s);
    }
    if in_token {
        let ghost old_spans = spans@;
        spans.push((start, i));
        proof {
            assert(spans_text(s, spans@) =~= spans_text(s, old_spans).push(
                s.subrange(start as int, i as int),
            ));
        }
    }
    let mut out: Vec<String> = Vec::new();
    let mut k: usize = 0;
    proof {
        assert(out@.map_values(|t: String| t@) =~= spans_text(s, spans@).subrange(0, 0));
    }
    while k < spans.len()
        invariant
            s == line@,
            k <= spans@.len(),
            forall|j: int| 0 <= j < spans@.len() ==> #[trigger] spans@[j].0 <= spans@[j].1 <= s.len(),
            out@.map_values(|t: String| t@) == spans_text(s, spans@).subrange(0, k as int),
        decreases spans@.len() - k,
    {
        let (a, b) = spans[k];
        let piece = line.substring_char(a, b).to_owned();
        let ghost before = out@;
        out.push(piece);
        proof {
            assert(out@.map_values(|t: String| t@) =~= before.map_values(|t: String| t@).push(
                piece@,
            ));
            assert(spans_text(s, spans@).subrange(0, k + 1) =~= spans_text(s, spans@).subrange(
                0,
                k as int,
            ).push(s.subrange(a as int, b as int)));
        }
        k += 1;
    }
    proof {
        assert(spans_text(s, spans@).subrange(0, spans@.len() as int) =~= spans_text(s, spans@));
    }
    out
}

/// Whether the text of `t` is `w`.
fn is_word(t: &String, w: &str) -> (r: bool)
    ensures
        r == (t@ == w@),
{
    let c = compare_bytes(t.as_str().as_bytes(), w.as_bytes());
    proof {
        if c is Equal {
            lemma_utf8_injective(t@, w@);
        }
    }
    match c {
        Cmp::Equal => true,
        _ => false,
    }
}

/// What the client makes of a line it read.
pub enum Input {
    /// Nothing to send: a blank line, or a command without its arguments.
    Skip,
    /// `exit` or `quit`: the client stops.
    Quit,
    /// A command the client does not know.
    Unknown,
    /// A request to send.
    Request(OP, String, String),
}

/// Whether the words of a line are just `exit` or just `quit`.
pub open spec fn is_quit(t: Seq<Seq<char>>) -> bool {
    t.len() == 1 && (t[0] == "exit"@ || t[0] == "quit"@)
}

/// Whether `r` is the request for `op` on key `key` with value `value`.
pub open spec fn is_request(r: Input, op: OP, key: Seq<char>, value: Seq<char>) -> bool {
    r matches Input::Request(o, k, v) && o == op && k@ == key && v@ == value
}

/// Reads a command line: its first word is the command, its second the key,
/// and its third the value, for `add` and `update`; surrounding whitespace
/// does not count.
pub fn parse_input_line(line: &str) -> (r: Input)
    ensures
        ({
            let t = tokens(line@);
            &&& t.len() == 0 ==> r is Skip
            &&& is_quit(t) ==> r is Quit
            &&& t.len() == 1 && !is_quit(t) ==> r is Skip
            &&& t.len() >= 2 ==> {
                &&& t[0] == "get"@ ==> is_request(r, OP::Get, t[1], Seq::empty())
                &&& t[0] == "remove"@ ==> is_request(r, OP::Remove, t[1], Seq::empty())
                &&& t[0] == "add"@ ==> if t.len() >= 3 {
                    is_request(r, OP::Add, t[1], t[2])
                } else {
                    r is Skip
                }
                &&& t[0] == "update"@ ==> if t.len() >= 3 {
                    is_request(r, OP::Update, t[1], t[2])
                } else {
                    r is Skip
                }
                &&& t[0] != "get"@ && t[0] != "remove"@ && t[0] != "add"@ && t[0] != "update"@
                    ==> r is Unknown
            }
        }),
{
    let words = split_tokens(line);
    let ghost t = tokens(line@);
    proof {
        reveal_strlit("get");
        reveal_strlit("remove");
        reveal_strlit("add");
        reveal_strlit("update");
        assert("get"@.len() == 3 && "remove"@.len() == 6 && "add"@.len() == 3
            && "update"@.len() == 6);
        assert("get"@[0] == 'g' && "add"@[0] == 'a' && "remove"@[0] == 'r' && "update"@[0] == 'u');
        assert(words@.len() == t.len());
        assert forall|i: int| 0 <= i < t.len() implies #[trigger] words@[i]@ == t[i] by {
            assert(words@.map_values(|w: String| w@)[i] == words@[i]@);
        }
    }
    if words.len() == 0 {
        return Input::Skip;
    }
    if words.len() == 1 && (is_word(&words[0], "exit") || is_word(&words[0], "quit")) {
        return Input::Quit;
    }
    if words.len() < 2 {
        return Input::Skip;
    }
    let op = &words[0];
    let key = words[1].clone();
    if is_word(op, "get") {
        Input::Request(OP::Get, key, String::new())
    } else if is_word(op, "remove") {
        Input::Request(OP::Remove, key, String::new())
    } else if is_word(op, "add") {
        if words.len() < 3 {
            return Input::Skip;
        }
        Input::Request(OP::Add, key, words[2].clone())
    } else if is_word(op, "update") {
        if words.len() < 3 {
            return Input::Skip;
        }
        Input::Request(OP::Update, key, words[2].clone())
    } else {
        Input::Unknown
    }
}

} // verus!
