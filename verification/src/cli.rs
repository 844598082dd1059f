//! The command language of the database console: `put <key> <value>`,
//! `get <key>`, `clear` and `help`, words separated by white space.
use vstd::prelude::*;

verus! {

/// `c` has the Unicode `White_Space` property (what `char::is_whitespace` tests).
pub open spec fn is_white(c: char) -> bool {
    let n = c as u32;
    ||| 0x09 <= n <= 0x0d
    ||| n == 0x20
    ||| n == 0x85
    ||| n == 0xa0
    ||| n == 0x1680
    ||| 0x2000 <= n <= 0x200a
    ||| n == 0x2028
    ||| n == 0x2029
    ||| n == 0x202f
    ||| n == 0x205f
    ||| n == 0x3000
}

/// The length of the run of non-white characters at the start of `s`.
pub open spec fn word_len(s: Seq<char>) -> nat
    decreases s.len(),
{
    if s.len() == 0 || is_white(s[0]) {
        0
    } else {
        1 + word_len(s.drop_first())
    }
}

/// The words of `s`: its maximal runs of non-white characters, in order (what
/// `str::split_whitespace` yields).
pub open spec fn words(s: Seq<char>) -> Seq<Seq<char>>
    decreases s.len(),
{
    if s.len() == 0 {
        Seq::empty()
    } else if is_white(s[0]) {
        words(s.drop_first())
    } else {
        let n = word_len(s);
        proof {
            lemma_word_len_bounds(s);
        }
        seq![s.take(n as int)] + words(s.skip(n as int))
    }
}

/// A word is no longer than the text it starts, and not empty when the text starts with one.
pub proof fn lemma_word_len_bounds(s: Seq<char>)
    ensures
        word_len(s) <= s.len(),
        s.len() > 0 && !is_white(s[0]) ==> word_len(s) >= 1,
    decreases s.len(),
{
    if s.len() > 0 && !is_white(s[0]) {
        lemma_word_len_bounds(s.drop_first());
    }
}

/// A console command.
#[derive(Debug)]
pub enum CliCommand {
    Put { key: String, value: String },
    Get { key: String },
    Clear,
    Help,
    Invalid,
}

/// Tests the Unicode `White_Space` property.
pub fn is_whitespace(c: char) -> (r: bool)
    ensures
        r == is_white(c),
{
    let n = c as u32;
    (0x09 <= n && n <= 0x0d) || n == 0x20 || n == 0x85 || n == 0xa0 || n == 0x1680 || (0x2000 <= n
        && n <= 0x200a) || n == 0x2028 || n == 0x2029 || n == 0x202f || n == 0x205f || n == 0x3000
}

/// The words of `input`, in order.
pub fn split_words(input: &str) -> (r: Vec<String>)
    ensures
        r@.map_values(|w: String| w@) == words(input@),
{
    let n = input.unicode_len();
    let ghost s = input@;
    let mut out: Vec<String> = Vec::new();
    let mut i: usize = 0;
    assert(s.skip(0) =~= s);
    while i < n
        invariant
            n == s.len(),
            s == input@,
            i <= n,
            words(s) == out@.map_values(|w: String| w@) + words(s.skip(i as int)),
        decreases n - i,
    {
        let c = input.get_char(i);
        let ghost rest = s.skip(i as int);
        if is_whitespace(c) {
            assert(rest.drop_first() =~= s.skip(i + 1));
            i = i + 1;
        } else {
            let start = i;
            let mut j: usize = i;
            while j < n && !is_whitespace(input.get_char(j))
                invariant
                    n == s.len(),
                    s == input@,
                    start <= j <= n,
                    start < n,
                    !is_white(s[start as int]),
                    forall|t: int| start <= t < j ==> !is_white(s[t]),
                    word_len(s.skip(start as int)) == (j - start) + word_len(s.skip(j as int)),
                decreases n - j,
            {
                assert(s.skip(j as int).drop_first() =~= s.skip(j + 1));
                j = j + 1;
            }
            assert(word_len(s.skip(j as int)) == 0);
            let ghost before = out@.map_values(|w: String| w@);
            let word = input.substring_char(start, j).to_owned();
            out.push(word);
            proof {
                lemma_word_len_bounds(rest);
                assert(rest.take((j - start) as int) =~= s.subrange(start as int, j as int));
                assert(rest.skip((j - start) as int) =~= s.skip(j as int));
                assert(out@.map_values(|w: String| w@) =~= before.push(s.subrange(start as int, j as int)));
                assert(words(s) == before + (seq![s.subrange(start as int, j as int)] + words(s.skip(j as int))));
                assert(before + (seq![s.subrange(start as int, j as int)] + words(s.skip(j as int))) =~= before.push(s.subrange(start as int, j as int)) + words(s.skip(j as int)));
            }
            i = j;
        }
    }
    assert(s.skip(n as int) =~= Seq::<char>::empty());
    assert(out@.map_values(|w: String| w@) + Seq::<Seq<char>>::empty() =~= out@.map_values(|w: String| w@));
    out
}

/// What a console command means.
pub enum CommandView {
    Put(Seq<char>, Seq<char>),
    Get(Seq<char>),
    Clear,
    Help,
    Invalid,
}

impl View for CliCommand {
    type V = CommandView;

    open spec fn view(&self) -> CommandView {
        match self {
            CliCommand::Put { key, value } => CommandView::Put(key@, value@),
            CliCommand::Get { key } => CommandView::Get(key@),
            CliCommand::Clear => CommandView::Clear,
            CliCommand::Help => CommandView::Help,
            CliCommand::Invalid => CommandView::Invalid,
        }
    }
}

/// The command that a line of words states: `put` with a key and a value, `get`
/// with a key, `clear` or `help` alone; anything else is invalid.
pub open spec fn command_of(w: Seq<Seq<char>>) -> CommandView {
    if w.len() == 3 && w[0] == seq!['p', 'u', 't'] {
        CommandView::Put(w[1], w[2])
    } else if w.len() == 2 && w[0] == seq!['g', 'e', 't'] {
        CommandView::Get(w[1])
    } else if w.len() == 1 && w[0] == seq!['c', 'l', 'e', 'a', 'r'] {
        CommandView::Clear
    } else if w.len() == 1 && w[0] == seq!['h', 'e', 'l', 'p'] {
        CommandView::Help
    } else {
        CommandView::Invalid
    }
}

/// The command that a console line states.
pub fn parse_cli_input(input: &str) -> (r: CliCommand)
    ensures
        r@ == command_of(words(input@)),
{
    proof {
        reveal_strlit("put");
        reveal_strlit("get");
        reveal_strlit("clear");
        reveal_strlit("help");
    }
    let put_word = String::from_str("put");
    let get_word = String::from_str("get");
    let clear_word = String::from_str("clear");
    let help_word = String::from_str("help");
    assert(put_word@ =~= seq!['p', 'u', 't']);
    assert(get_word@ =~= seq!['g', 'e', 't']);
    assert(clear_word@ =~= seq!['c', 'l', 'e', 'a', 'r']);
    assert(help_word@ =~= seq!['h', 'e', 'l', 'p']);
    let mut w = split_words(input);
    let ghost wv = w@.map_values(|x: String| x@);
    assert(wv.len() == w.len());
    if w.len() == 3 && w[0] == put_word {
        assert(wv[0] == w@[0]@);
        let value = w.pop().unwrap();
        let key = w.pop().unwrap();
        assert(wv[1] == key@ && wv[2] == value@);
        CliCommand::Put { key, value }
    } else if w.len() == 2 && w[0] == get_word {
        assert(wv[0] == w@[0]@);
        let key = w.pop().unwrap();
        assert(wv[1] == key@);
        CliCommand::Get { key }
    } else if w.len() == 1 && w[0] == clear_word {
        assert(wv[0] == w@[0]@);
        CliCommand::Clear
    } else if w.len() == 1 && w[0] == help_word {
        assert(wv[0] == w@[0]@);
        CliCommand::Help
    } else {
        proof {
            if w.len() > 0 {
                assert(wv[0] == w@[0]@);
            }
        }
        CliCommand::Invalid
    }
}

} // verus!
