//! The line that shows a chain of words: its words joined by arrows, with the
//! characters that already agree with the last word picked out in green.

use crate::graph::{words_of, Word};
use crate::word::same_word;
use colored::Colorize;
use vstd::prelude::*;
use vstd::std_specs::iter::IteratorSpec;
use vstd::string::StringExecFns;

verus! {

/// The escape sequence that switches green text on.
pub open spec fn green_on() -> Seq<char> {
    seq!['\u{1b}', '[', '3', '2', 'm']
}

/// The escape sequence that switches all colours off.
pub open spec fn colours_off() -> Seq<char> {
    seq!['\u{1b}', '[', '0', 'm']
}

/// Whether colours were in use while a character was drawn.
pub enum Paint {
    /// They were not.
    Off,
    /// They were.
    On,
    /// They were when the drawing began and were switched off before the
    /// colour was written.
    Lost,
}

/// The character `c` as it is drawn in green.
pub open spec fn green(c: char, paint: Paint) -> Seq<char> {
    match paint {
        Paint::Off => seq![c],
        Paint::On => green_on() + seq![c] + colours_off(),
        Paint::Lost => seq![c] + colours_off(),
    }
}

/// The arrow that stands behind every word but the last.
pub open spec fn arrow() -> Seq<char> {
    seq![' ', '-', '>', ' ']
}

/// How one character is drawn: in green where it agrees with the last word,
/// plainly otherwise.
pub open spec fn drawn_char(c: char, agrees: bool, paint: Paint) -> Seq<char> {
    if agrees {
        green(c, paint)
    } else {
        seq![c]
    }
}

/// The number of characters of `word` that are drawn: those that have a
/// character of `stop` to be held against.
pub open spec fn drawn_len(word: Word, stop: Word) -> int {
    if word.len() <= stop.len() {
        word.len() as int
    } else {
        stop.len() as int
    }
}

/// The first `upto` characters of `word` as they are drawn; `lit` says for
/// each position whether colours were in use there.
pub open spec fn drawn_word(word: Word, stop: Word, lit: Seq<Paint>, upto: int) -> Seq<char>
    decreases upto,
{
    if upto <= 0 {
        Seq::empty()
    } else {
        drawn_word(word, stop, lit, upto - 1) + drawn_char(
            word[upto - 1],
            word[upto - 1] == stop[upto - 1],
            lit[upto - 1],
        )
    }
}

/// One of the first `i` words is `stop`.
pub open spec fn stop_before(path: Seq<Word>, stop: Word, i: int) -> bool {
    exists|j: int| 0 <= j < i && #[trigger] path[j] == stop
}

/// What word `i` adds to the line: nothing once `stop` has been drawn;
/// otherwise the word, followed by an arrow unless it is `stop` itself.
pub open spec fn drawn_entry(path: Seq<Word>, stop: Word, lit: Seq<Seq<Paint>>, i: int) -> Seq<
    char,
> {
    if stop_before(path, stop, i) {
        Seq::empty()
    } else if path[i] == stop {
        drawn_word(path[i], stop, lit[i], drawn_len(path[i], stop))
    } else {
        drawn_word(path[i], stop, lit[i], drawn_len(path[i], stop)) + arrow()
    }
}

/// What the first `upto` words add to the line.
pub open spec fn drawn_path(path: Seq<Word>, stop: Word, lit: Seq<Seq<Paint>>, upto: int) -> Seq<
    char,
>
    decreases upto,
{
    if upto <= 0 {
        Seq::empty()
    } else {
        drawn_path(path, stop, lit, upto - 1) + drawn_entry(path, stop, lit, upto - 1)
    }
}

/// A line shows `path` up to `stop`: it is what the words add, one after the
/// other, for some choice of where colours were in use.
pub open spec fn shows_path(line: Seq<char>, path: Seq<Word>, stop: Word) -> bool {
    exists|lit: Seq<Seq<Paint>>| line == #[trigger] drawn_path(path, stop, lit, path.len() as int)
}

/// What is drawn of a word depends only on the choices up to there.
proof fn lemma_drawn_word_frame(word: Word, stop: Word, lit: Seq<Paint>, more: Seq<Paint>, upto: int)
    requires
        upto <= lit.len() <= more.len(),
        forall|k: int| 0 <= k < lit.len() ==> lit[k] == more[k],
    ensures
        drawn_word(word, stop, lit, upto) == drawn_word(word, stop, more, upto),
    decreases upto,
{
    if upto > 0 {
        lemma_drawn_word_frame(word, stop, lit, more, upto - 1);
    }
}

/// What is drawn of the first words depends only on the choices for them.
proof fn lemma_drawn_path_frame(
    path: Seq<Word>,
    stop: Word,
    lit: Seq<Seq<Paint>>,
    more: Seq<Seq<Paint>>,
    upto: int,
)
    requires
        upto <= lit.len() <= more.len(),
        forall|k: int| 0 <= k < lit.len() ==> lit[k] == more[k],
    ensures
        drawn_path(path, stop, lit, upto) == drawn_path(path, stop, more, upto),
    decreases upto,
{
    if upto > 0 {
        lemma_drawn_path_frame(path, stop, lit, more, upto - 1);
    }
}

/// Once `stop` has been drawn the line is complete.
proof fn lemma_drawn_path_done(
    path: Seq<Word>,
    stop: Word,
    lit: Seq<Seq<Paint>>,
    done: int,
    upto: int,
)
    requires
        0 < done <= upto,
        path[done - 1] == stop,
    ensures
        drawn_path(path, stop, lit, upto) == drawn_path(path, stop, lit, done),
    decreases upto,
{
    if upto > done {
        lemma_drawn_path_done(path, stop, lit, done, upto - 1);
        assert(stop_before(path, stop, upto - 1));
        assert(drawn_path(path, stop, lit, upto) =~= drawn_path(path, stop, lit, upto - 1));
    }
}

/// The text of one character, as `char`'s `to_string` of std gives it: the
/// string that holds this character and nothing else.
#[verifier::external_body]
fn char_text(c: char) -> (text: String)
    ensures
        text@ == seq![c],
{
    c.to_string()
}

/// The text of one character painted green, as `Colorize::green` and the
/// `Display` of `ColoredString` in the crate colored give it. Where colours
/// are in use, which the crate decides from the environment, from whether
/// the output is a terminal and from its override switch, the character
/// stands between the escape sequences for green and for reset; where they
/// are not, it stands alone. The crate asks whether colours are in use once
/// before it writes anything and once more for the colour itself, so a
/// switch thrown in between leaves the character with the reset only.
#[verifier::external_body]
fn green_text(c: char) -> (text: String)
    ensures
        text@ == green(c, Paint::Off) || text@ == green(c, Paint::On) || text@ == green(
            c,
            Paint::Lost,
        ),
{
    format!("{}", format!("{}", c).green())
}

/// The text of `word` as it is drawn before `stop`, and where colours were in
/// use.
fn render_word(word: &str, stop: &str) -> (out: (String, Ghost<Seq<Paint>>))
    ensures
        out.0@ == drawn_word(word@, stop@, out.1@, drawn_len(word@, stop@)),
        out.1@.len() == drawn_len(word@, stop@),
{
    broadcast use vstd::string::group_string_axioms;

    let mut text = String::new();
    let ghost mut lit: Seq<Paint> = Seq::empty();
    let mut left = word.chars();
    let mut right = stop.chars();
    let ghost mut k: int = 0;
    loop
        invariant_except_break
            left.remaining() == word@.skip(k),
            right.remaining() == stop@.skip(k),
        invariant
            0 <= k <= word@.len(),
            k <= stop@.len(),
            lit.len() == k,
            text@ == drawn_word(word@, stop@, lit, k),
        ensures
            k == drawn_len(word@, stop@),
        decreases word@.len() - k,
    {
        let cword = match left.next() {
            Some(c) => c,
            None => { break ; },
        };
        let cstop = match right.next() {
            Some(c) => c,
            None => { break ; },
        };
        assert(cword == word@[k] && cstop == stop@[k]);
        assert(word@.skip(k).drop_first() == word@.skip(k + 1));
        assert(stop@.skip(k).drop_first() == stop@.skip(k + 1));
        let piece = if cword == cstop {
            green_text(cword)
        } else {
            char_text(cword)
        };
        let ghost flag = if piece@ == green(cword, Paint::On) {
            Paint::On
        } else if piece@ == green(cword, Paint::Lost) {
            Paint::Lost
        } else {
            Paint::Off
        };
        proof {
            lemma_drawn_word_frame(word@, stop@, lit, lit.push(flag), k);
            assert(piece@ == drawn_char(cword, cword == cstop, flag));
        }
        text.append(piece.as_str());
        proof {
            lit = lit.push(flag);
            k = k + 1;
        }
    }
    (text, Ghost(lit))
}

/// The line that shows `path`: each word up to and including the first that
/// is `stop`, and no word behind it. Of each word the characters are drawn
/// that have a character of `stop` at the same position, those that agree
/// with it in green where colours are in use. Behind each word but `stop`
/// stands an arrow.
pub fn render_path(path: &Vec<&str>, stop: &str) -> (line: String)
    ensures
        shows_path(line@, words_of(path@), stop@),
{
    let ghost words = words_of(path@);
    let mut line = String::new();
    let ghost mut lit: Seq<Seq<Paint>> = Seq::empty();
    let mut i: usize = 0;
    while i < path.len()
        invariant
            words == words_of(path@),
            i <= path@.len(),
            lit.len() == i,
            !stop_before(words, stop@, i as int),
            line@ == drawn_path(words, stop@, lit, i as int),
        decreases path@.len() - i,
    {
        let word = path[i];
        assert(words[i as int] == word@);
        let (text, Ghost(flags)) = render_word(word, stop);
        proof {
            lemma_drawn_path_frame(words, stop@, lit, lit.push(flags), i as int);
            lit = lit.push(flags);
        }
        line.append(text.as_str());
        if same_word(word, stop) {
            proof {
                lemma_drawn_path_done(words, stop@, lit, i as int + 1, path@.len() as int);
                assert(line@ == drawn_path(words, stop@, lit, words.len() as int));
            }
            return line;
        }
        proof {
            reveal_strlit(" -> ");
            assert(" -> "@ =~= arrow());
        }
        line.append(" -> ");
        i += 1;
    }
    assert(line@ == drawn_path(words, stop@, lit, words.len() as int));
    line
}

} // verus!
