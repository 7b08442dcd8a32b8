//! A lexical state machine that classifies byte strings as integer, float or
//! scientific-notation numeric tokens, recording the whole path of states it
//! walks through.

use vstd::prelude::*;

verus! {

use vstd::string::StringSliceAdditionalSpecFns;
use vstd::utf8::encode_utf8;

/// One state of the numeric-token classifier.
///
/// `Start` is the initial state; `Int`, `Float` and `Scientific` are the
/// accepting states; `S1` (after a leading sign), `S2` (after the exponent
/// marker), `ExponentSign` and `Exponent` are intermediate states; `Invalid`
/// is the rejecting sink.
#[derive(Debug, PartialEq, Eq, Clone, Copy, Structural)]
pub enum State {
    Start,
    S1,
    Int,
    Float,
    S2,
    ExponentSign,
    Exponent,
    Scientific,
    Invalid,
}

/// The transition table of the classifier: the state reached from `s` on
/// reading the byte `ch`.
pub open spec fn spec_next_state(s: State, ch: u8) -> State {
    match s {
        State::Start => {
            if 48 <= ch <= 57 {
                State::Int
            } else if ch == 43 || ch == 45 {
                State::S1
            } else if ch == 46 {
                State::Float
            } else {
                State::Invalid
            }
        },
        State::S1 => {
            if 48 <= ch <= 57 {
                State::Int
            } else if ch == 46 {
                State::Float
            } else {
                State::Invalid
            }
        },
        State::Int => {
            if 48 <= ch <= 57 {
                State::Int
            } else if ch == 46 {
                State::Float
            } else if ch == 101 || ch == 69 {
                State::S2
            } else {
                State::Invalid
            }
        },
        State::Float => {
            if 48 <= ch <= 57 {
                State::Float
            } else if ch == 101 || ch == 69 {
                State::S2
            } else {
                State::Invalid
            }
        },
        State::S2 => {
            if ch == 43 || ch == 45 {
                State::ExponentSign
            } else if 48 <= ch <= 57 {
                State::Exponent
            } else {
                State::Invalid
            }
        },
        State::ExponentSign => {
            if 48 <= ch <= 57 {
                State::Exponent
            } else {
                State::Invalid
            }
        },
        State::Exponent => {
            if 48 <= ch <= 57 {
                State::Scientific
            } else {
                State::Invalid
            }
        },
        State::Scientific => {
            if 48 <= ch <= 57 {
                State::Scientific
            } else {
                State::Invalid
            }
        },
        State::Invalid => State::Invalid,
    }
}

/// Whether `s` is one of the accepting states.
pub open spec fn spec_valid_final(s: State) -> bool {
    s == State::Int || s == State::Float || s == State::Scientific
}

/// The path of states walked while reading `input`: it begins at `Start`,
/// appends the state reached on each byte, and stops early the moment
/// `Invalid` is reached.
pub open spec fn spec_raw_path(input: Seq<u8>) -> Seq<State>
    decreases input.len(),
{
    if input.len() == 0 {
        seq![State::Start]
    } else {
        let prefix = spec_raw_path(input.drop_last());
        if prefix.last() == State::Invalid {
            prefix
        } else {
            prefix.push(spec_next_state(prefix.last(), input.last()))
        }
    }
}

/// The full path reported for `input`: the raw path, with one trailing
/// `Scientific` appended when reading ended in an intermediate state (neither
/// accepting nor `Invalid`).
pub open spec fn spec_path(input: Seq<u8>) -> Seq<State> {
    let raw = spec_raw_path(input);
    if !spec_valid_final(raw.last()) && raw.last() != State::Invalid {
        raw.push(State::Scientific)
    } else {
        raw
    }
}

/// The raw path is never empty and starts at `Start`.
pub proof fn lemma_raw_path_shape(input: Seq<u8>)
    ensures
        spec_raw_path(input).len() >= 1,
        spec_raw_path(input)[0] == State::Start,
    decreases input.len(),
{
    if input.len() > 0 {
        lemma_raw_path_shape(input.drop_last());
    }
}

/// Once the raw path has ended in `Invalid`, reading further bytes changes
/// nothing.
proof fn lemma_raw_path_stops_at_invalid(input: Seq<u8>, i: int)
    requires
        0 <= i <= input.len(),
        spec_raw_path(input.take(i)).last() == State::Invalid,
    ensures
        spec_raw_path(input) == spec_raw_path(input.take(i)),
    decreases input.len() - i,
{
    if i < input.len() {
        assert(input.take(i + 1).drop_last() =~= input.take(i));
        lemma_raw_path_stops_at_invalid(input, i + 1);
    } else {
        assert(input.take(i) =~= input);
    }
}

impl State {
    /// Runs the classifier over `input` and returns the final state together
    /// with the path of states walked.
    pub fn transition(input: &[u8]) -> (r: (State, Vec<State>))
        ensures
            r.1@ == spec_path(input@),
            r.0 == spec_path(input@).last(),
            r.1@.len() >= 1,
            r.1@[0] == State::Start,
    {
        proof {
            lemma_raw_path_shape(input@);
        }
        let ghost all = input@;
        let mut state = State::Start;
        let mut state_path: Vec<State> = Vec::new();
        state_path.push(state);

        let n = input.len();
        let mut i: usize = 0;
        while i < n && !matches!(state, State::Invalid)
            invariant
                0 <= i <= n,
                n == all.len(),
                input@ == all,
                state_path@ == spec_raw_path(all.take(i as int)),
                state == state_path@.last(),
            decreases n - i,
        {
            let ch = input[i];
            state = match state {
                State::Start => {
                    match ch {
                        48..=57 => State::Int,
                        43 | 45 => State::S1,
                        46 => State::Float,
                        _ => State::Invalid,
                    }
                },
                State::S1 => {
                    match ch {
                        48..=57 => State::Int,
                        46 => State::Float,
                        _ => State::Invalid,
                    }
                },
                State::Int => {
                    match ch {
                        48..=57 => State::Int,
                        46 => State::Float,
                        101 | 69 => State::S2,
                        _ => State::Invalid,
                    }
                },
                State::Float => {
                    match ch {
                        48..=57 => State::Float,
                        101 | 69 => State::S2,
                        _ => State::Invalid,
                    }
                },
                State::S2 => {
                    match ch {
                        43 | 45 => State::ExponentSign,
                        48..=57 => State::Exponent,
                        _ => State::Invalid,
                    }
                },
                State::ExponentSign => {
                    match ch {
                        48..=57 => State::Exponent,
                        _ => State::Invalid,
                    }
                },
                State::Exponent => {
                    match ch {
                        48..=57 => State::Scientific,
                        _ => State::Invalid,
                    }
                },
                State::Scientific => {
                    match ch {
                        48..=57 => State::Scientific,
                        _ => State::Invalid,
                    }
                },
                State::Invalid => State::Invalid,
            };
            proof {
                assert(state == spec_next_state(state_path@.last(), all[i as int]));
                assert(all.take(i + 1).drop_last() =~= all.take(i as int));
            }
            state_path.push(state);
            i = i + 1;
        }

        proof {
            if i < n {
                lemma_raw_path_stops_at_invalid(all, i as int);
            } else {
                assert(all.take(i as int) =~= all);
            }
        }

        if !State::is_valid_final_state(state) && !matches!(state, State::Invalid) {
            state = State::Scientific;
            state_path.push(State::Scientific);
        }

        (state, state_path)
    }

    /// Whether `state` is an accepting state of the classifier.
    pub fn is_valid_final_state(state: State) -> (r: bool)
        ensures
            r == spec_valid_final(state),
    {
        matches!(state, State::Int | State::Float | State::Scientific)
    }
}

/// The position of the first `d` in `s`.
pub open spec fn first_delim(s: Seq<char>, d: char) -> Option<int>
    decreases s.len(),
{
    if s.len() == 0 {
        None
    } else if s[0] == d {
        Some(0int)
    } else {
        match first_delim(s.drop_first(), d) {
            None => None,
            Some(i) => Some(i + 1),
        }
    }
}

/// Conversely, a first position holding `d` determines the answer.
pub proof fn lemma_first_delim_at(s: Seq<char>, d: char, k: int)
    requires
        0 <= k < s.len(),
        s[k] == d,
        forall|j: int| 0 <= j < k ==> s[j] != d,
    ensures
        first_delim(s, d) == Some(k),
    decreases k,
{
    if k > 0 {
        let t = s.drop_first();
        assert(forall|j: int| 0 <= j < t.len() ==> #[trigger] t[j] == s[j + 1]);
        lemma_first_delim_at(t, d, k - 1);
    }
}

/// And a string free of `d` answers `None`.
pub proof fn lemma_first_delim_none(s: Seq<char>, d: char)
    requires
        forall|j: int| 0 <= j < s.len() ==> s[j] != d,
    ensures
        first_delim(s, d) is None,
    decreases s.len(),
{
    if s.len() > 0 {
        let t = s.drop_first();
        assert(forall|j: int| 0 <= j < t.len() ==> #[trigger] t[j] == s[j + 1]);
        lemma_first_delim_none(t, d);
    }
}

/// `s` split on the delimiter `d`: the (possibly empty) stretches between
/// occurrences of `d`, in order.
pub open spec fn spec_split(s: Seq<char>, d: char) -> Seq<Seq<char>>
    decreases s.len(),
{
    match first_delim(s, d) {
        None => seq![s],
        Some(i) => {
            if 0 <= i < s.len() {
                seq![s.take(i)] + spec_split(s.skip(i + 1), d)
            } else {
                seq![s]
            }
        },
    }
}


impl State {
    /// Splits `input` on `delimiter` and classifies each token, returning for
    /// each the token itself, its final state and its state path.
    pub fn transition_multiple(input: &str, delimiter: char) -> (r: Vec<
        (String, State, Vec<State>),
    >)
        ensures
            r@.len() == spec_split(input@, delimiter).len(),
            forall|i: int|
                0 <= i < r@.len() ==> {
                    let tok = spec_split(input@, delimiter)[i];
                    &&& (#[trigger] r@[i]).0@ == tok
                    &&& r@[i].1 == spec_path(encode_utf8(tok)).last()
                    &&& r@[i].2@ == spec_path(encode_utf8(tok))
                },
    {
        let ghost all = input@;
        let ghost toks = spec_split(all, delimiter);
        let n_chars = input.unicode_len();
        let mut r: Vec<(String, State, Vec<State>)> = Vec::new();
        let mut start: usize = 0;
        let mut pos: usize = 0;
        proof {
            assert(all.skip(0) =~= all);
            assert(toks.skip(0) =~= toks);
        }
        while pos < n_chars
            invariant
                0 <= start <= pos <= n_chars,
                n_chars == all.len(),
                input@ == all,
                toks == spec_split(all, delimiter),
                forall|j: int| start <= j < pos ==> all[j] != delimiter,
                r@.len() <= toks.len(),
                spec_split(all.skip(start as int), delimiter) == toks.skip(r@.len() as int),
                forall|i: int|
                    0 <= i < r@.len() ==> {
                        let tok = toks[i];
                        &&& (#[trigger] r@[i]).0@ == tok
                        &&& r@[i].1 == spec_path(encode_utf8(tok)).last()
                        &&& r@[i].2@ == spec_path(encode_utf8(tok))
                    },
            decreases n_chars - pos,
        {
            let c = input.get_char(pos);
            if c == delimiter {
                let token = input.substring_char(start, pos);
                let text = token.to_owned();
                let bytes = token.as_bytes();
                let (state, path) = State::transition(bytes);
                proof {
                    let suffix = all.skip(start as int);
                    let k = pos - start;
                    assert(forall|j: int| 0 <= j < suffix.len() ==> #[trigger] suffix[j] == all[
                        j + start]);
                    lemma_first_delim_at(suffix, delimiter, k as int);
                    assert(spec_split(suffix, delimiter) == seq![suffix.take(k as int)]
                        + spec_split(suffix.skip(k + 1), delimiter));
                    assert(toks.skip(r@.len() as int)[0] == toks[r@.len() as int]);
                    assert(toks[r@.len() as int] == suffix.take(k as int));
                    assert(token@ =~= suffix.take(k as int));
                    assert(suffix.skip(k + 1) =~= all.skip(pos + 1));
                    assert(bytes@ == encode_utf8(toks[r@.len() as int]));
                }
                r.push((text, state, path));
                start = pos + 1;
                proof {
                    assert(toks.skip(r@.len() - 1).drop_first() =~= toks.skip(r@.len() as int));
                    assert(spec_split(all.skip(start as int), delimiter) == toks.skip(
                        r@.len() as int,
                    ));
                }
            }
            pos = pos + 1;
        }
        let token = input.substring_char(start, n_chars);
        let text = token.to_owned();
        let bytes = token.as_bytes();
        let (state, path) = State::transition(bytes);
        proof {
            let suffix = all.skip(start as int);
            assert(forall|j: int| 0 <= j < suffix.len() ==> #[trigger] suffix[j] == all[j + start]);
            lemma_first_delim_none(suffix, delimiter);
            assert(spec_split(suffix, delimiter) == seq![suffix]);
            assert(toks.skip(r@.len() as int)[0] == toks[r@.len() as int]);
            assert(toks[r@.len() as int] == suffix);
            assert(token@ =~= suffix);
            assert(bytes@ == encode_utf8(toks[r@.len() as int]));
        }
        r.push((text, state, path));
        proof {
            assert(toks.skip(r@.len() - 1) =~= seq![toks[r@.len() - 1]]);
            assert(r@.len() == toks.len());
        }
        r
    }
}

/// A one-byte code for each state, in declaration order.
pub open spec fn spec_state_code(s: State) -> u8 {
    match s {
        State::Start => 0,
        State::S1 => 1,
        State::Int => 2,
        State::Float => 3,
        State::S2 => 4,
        State::ExponentSign => 5,
        State::Exponent => 6,
        State::Scientific => 7,
        State::Invalid => 8,
    }
}

impl State {
    /// The one-byte code of this state.
    pub fn code(self) -> (r: u8)
        ensures
            r == spec_state_code(self),
    {
        match self {
            State::Start => 0,
            State::S1 => 1,
            State::Int => 2,
            State::Float => 3,
            State::S2 => 4,
            State::ExponentSign => 5,
            State::Exponent => 6,
            State::Scientific => 7,
            State::Invalid => 8,
        }
    }
}

} // verus!
