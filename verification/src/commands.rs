//! The line protocol of the engine: splitting a command line into words and
//! turning the argument of `analyze` into a validated position.

use vstd::prelude::*;
use vstd::string::StringExecFns;
use crate::node::Node;
use crate::parsing::ParseError;
use crate::validation::ValidationError;

verus! {

/// The words of `cs[i..]`, given the quoting state, the word being read and
/// the words already read: spaces and tabs outside double quotes separate
/// words, and the quotes themselves are dropped.
pub open spec fn words_from(cs: Seq<char>, i: int, in_quotes: bool, current: Seq<char>, parts: Seq<Seq<char>>) -> Seq<Seq<char>>
    decreases cs.len() - i,
{
    if i >= cs.len() || i < 0 {
        if current.len() > 0 { parts.push(current) } else { parts }
    } else {
        let c = cs[i];
        if c == '"' {
            words_from(cs, i + 1, !in_quotes, current, parts)
        } else if (c == ' ' || c == '\t') && !in_quotes {
            if current.len() > 0 {
                words_from(cs, i + 1, in_quotes, Seq::empty(), parts.push(current))
            } else {
                words_from(cs, i + 1, in_quotes, current, parts)
            }
        } else {
            words_from(cs, i + 1, in_quotes, current.push(c), parts)
        }
    }
}

/// The words of a command line.
pub open spec fn command_words(cs: Seq<char>) -> Seq<Seq<char>> {
    words_from(cs, 0, false, Seq::empty(), Seq::empty())
}

/// Split a command line into words: spaces and tabs separate words outside
/// double quotes, and the quotes are dropped.
pub fn parse_command_line(input: &str) -> (r: Vec<String>)
    ensures
        r@.len() == command_words(input@).len(),
        forall|k: int| 0 <= k < r@.len() ==> (#[trigger] r@[k])@ == command_words(input@)[k],
{
    let n = input.unicode_len();
    let mut parts: Vec<String> = Vec::new();
    let mut current = String::new();
    let mut current_len: usize = 0;
    let mut in_quotes = false;
    let ghost mut parts_view: Seq<Seq<char>> = Seq::empty();
    let mut i: usize = 0;
    while i < n
        invariant
            i <= n,
            n == input@.len(),
            current_len == current@.len(),
            current_len <= i,
            parts@.len() == parts_view.len(),
            forall|k: int| 0 <= k < parts@.len() ==> (#[trigger] parts@[k])@ == parts_view[k],
            command_words(input@) == words_from(input@, i as int, in_quotes, current@, parts_view),
        decreases n - i,
    {
        let ch = input.get_char(i);
        let ghost w = words_from(input@, i as int, in_quotes, current@, parts_view);
        if ch == '"' {
            assert(w == words_from(input@, i + 1, !in_quotes, current@, parts_view));
            in_quotes = !in_quotes;
        } else if (ch == ' ' || ch == '\t') && !in_quotes {
            if current_len > 0 {
                let word = current;
                assert(w == words_from(input@, i + 1, in_quotes, Seq::empty(), parts_view.push(word@)));
                proof {
                    parts_view = parts_view.push(word@);
                }
                parts.push(word);
                current = String::new();
                current_len = 0;
            } else {
                assert(w == words_from(input@, i + 1, in_quotes, current@, parts_view));
            }
        } else {
            assert(w == words_from(input@, i + 1, in_quotes, current@.push(ch), parts_view));
            let piece = input.substring_char(i, i + 1);
            assert(piece@ =~= seq![ch]);
            let ghost before = current@;
            current.append(piece);
            assert(current@ =~= before.push(ch));
            current_len = current_len + 1;
        }
        i = i + 1;
    }
    if current_len > 0 {
        proof {
            parts_view = parts_view.push(current@);
        }
        parts.push(current);
    }
    parts
}

/// Why the argument of an `analyze` request gives no position to analyze.
#[derive(Debug, Clone, Copy, PartialEq, Eq, Structural)]
pub enum RequestError {
    /// The request names no position.
    MissingArgument,
    /// The text is not a position.
    Parse(ParseError),
    /// The position is not a legal one.
    Invalid(ValidationError),
}

/// The position an `analyze` argument names: the root for the word `root`,
/// otherwise the parsed text, if it is a legal position.
pub open spec fn request_node_spec(arg: Seq<char>) -> Result<Node, RequestError> {
    if arg == "root"@ {
        Ok(crate::node::depth_0_sentinel_spec())
    } else {
        match crate::parsing::parse_node_spec(arg) {
            Err(e) => Err(RequestError::Parse(e)),
            Ok(n) => match crate::validation::validate_node_spec(n) {
                Err(e) => Err(RequestError::Invalid(e)),
                Ok(()) => Ok(n),
            },
        }
    }
}

fn is_root_word(s: &str) -> (r: bool)
    ensures
        r == (s@ == "root"@),
{
    proof {
        reveal_strlit("root");
    }
    if s.unicode_len() != 4 {
        return false;
    }
    let r = s.get_char(0) == 'r' && s.get_char(1) == 'o' && s.get_char(2) == 'o' && s.get_char(3) == 't';
    proof {
        if r {
            assert(s@ =~= "root"@);
        }
    }
    r
}

/// The position named by the argument of an `analyze` request.
pub fn request_node(arg: &str) -> (r: Result<Node, RequestError>)
    ensures
        r == request_node_spec(arg@),
{
    if is_root_word(arg) {
        return Ok(crate::node::depth_0_sentinel());
    }
    match crate::parsing::parse_node(arg) {
        Err(e) => Err(RequestError::Parse(e)),
        Ok(n) => match crate::validation::validate_node(&n) {
            Err(e) => Err(RequestError::Invalid(e)),
            Ok(()) => Ok(n),
        },
    }
}

/// The position named by the words of an `analyze` command (the first word
/// is the command itself).
pub fn analyze_request(parts: &Vec<String>) -> (r: Result<Node, RequestError>)
    ensures
        parts@.len() < 2 ==> r == Err::<Node, RequestError>(RequestError::MissingArgument),
        parts@.len() >= 2 ==> r == request_node_spec(parts@[1]@),
{
    if parts.len() < 2 {
        return Err(RequestError::MissingArgument);
    }
    request_node(parts[1].as_str())
}

/// The depths whose tablebase is loaded, ascending.
pub fn loaded_depths(available: &[bool; 18]) -> (r: Vec<usize>)
    ensures
        forall|k: int| 0 <= k < r@.len() ==> #[trigger] r@[k] < 18 && available@[r@[k] as int],
        forall|d: int| 0 <= d < 18 && available@[d] ==> r@.contains(d as usize),
        forall|k1: int, k2: int| 0 <= k1 < k2 < r@.len() ==> r@[k1] < r@[k2],
{
    let mut r: Vec<usize> = Vec::new();
    let mut d: usize = 0;
    while d < 18
        invariant
            d <= 18,
            forall|k: int| 0 <= k < r@.len() ==> #[trigger] r@[k] < d && available@[r@[k] as int],
            forall|x: int| 0 <= x < d && available@[x] ==> r@.contains(x as usize),
            forall|k1: int, k2: int| 0 <= k1 < k2 < r@.len() ==> r@[k1] < r@[k2],
        decreases 18 - d,
    {
        if available[d] {
            let ghost prev = r@;
            r.push(d);
            proof {
                assert forall|x: int| 0 <= x < d + 1 && available@[x] implies r@.contains(x as usize) by {
                    if x < d {
                        let t = choose|t: int| 0 <= t < prev.len() && prev[t] == x as usize;
                        assert(r@[t] == x as usize);
                    } else {
                        assert(r@[prev.len() as int] == d);
                    }
                }
            }
        }
        d = d + 1;
    }
    r
}

} // verus!

verus! {

/// A position that an `analyze` request names is the root or names a piece
/// to place, which is what analysis asks of it.
pub proof fn lemma_requested_node_analyzable(arg: Seq<char>)
    ensures
        request_node_spec(arg) matches Ok(n) ==> n == crate::node::depth_0_sentinel_spec() || n.piece_to_place < 16,
{
    crate::parsing::lemma_parsed_piece(arg);
}

} // verus!
