//! The text of the script that stands in for a command.
//!
//! The script is run by `/bin/sh`. It copies one file to its standard output,
//! another to its standard error, and exits with a fixed status. Nothing in
//! it is looked up in the command search path, so it does the same whatever
//! the search path holds and whatever the mock is called: the shell and the
//! program that copies are named by their full paths. The two files are
//! named in single quotes, so that the shell takes every byte of a name for
//! itself; a name need not be text.

use crate::directory::{
    components, is_name, lead, lemma_components_of_empty, names, DOT, SLASH,
};
use crate::pieces::{
    contains_byte, lemma_split_around, lemma_split_free, lemma_split_pieces,
    lemma_split_trailing, split,
};
use vstd::prelude::*;
use vstd::slice::slice_to_vec;
use vstd::string::{is_ascii, is_ascii_spec_bytes};

verus! {

/// The bytes of a text of plain characters, one byte for each character.
pub open spec fn ascii(text: Seq<char>) -> Seq<u8> {
    Seq::new(text.len(), |i: int| text[i] as u8)
}

/// The byte that stands for the digit nought; the other digits follow it.
pub const DIGIT_ZERO: u8 = 48;

/// The byte that opens and closes a quoted stretch for the shell: a single
/// quote.
pub const QUOTE: u8 = 39;

/// The byte that makes the shell take the next byte for itself: a backslash.
pub const BACKSLASH: u8 = 92;

/// The byte that no file name and no line of a script can hold.
pub const NUL: u8 = 0;

/// The byte that stands for the digit `d`.
pub open spec fn digit(d: nat) -> u8
    recommends
        d < 10,
{
    (DIGIT_ZERO + d) as u8
}

/// The digit that a byte stands for: the inverse of [`digit`] on the ten
/// digit bytes.
pub open spec fn digit_value(b: u8) -> nat {
    if DIGIT_ZERO <= b <= DIGIT_ZERO + 9 {
        (b - DIGIT_ZERO) as nat
    } else {
        0
    }
}

/// The number `n` written in decimal, without leading zeros.
pub open spec fn decimal(n: nat) -> Seq<u8>
    decreases n,
{
    if n < 10 {
        seq![digit(n)]
    } else {
        decimal(n / 10).push(digit(n % 10))
    }
}

/// The number that a run of digits stands for.
pub open spec fn decimal_value(digits: Seq<u8>) -> nat
    decreases digits.len(),
{
    if digits.len() == 0 {
        0
    } else {
        10 * decimal_value(digits.drop_last()) + digit_value(digits.last())
    }
}

/// How one byte of a name is written inside single quotes. A single quote
/// cannot stand there: the quotes are closed, a quote is written after a
/// backslash, and the quotes are opened again.
pub open spec fn escaped_byte(b: u8) -> Seq<u8> {
    if b == QUOTE {
        seq![QUOTE, BACKSLASH, QUOTE, QUOTE]
    } else {
        seq![b]
    }
}

/// The bytes of `name` as they are written inside single quotes.
pub open spec fn escaped(name: Seq<u8>) -> Seq<u8>
    decreases name.len(),
{
    if name.len() == 0 {
        Seq::<u8>::empty()
    } else {
        escaped(name.drop_last()) + escaped_byte(name.last())
    }
}

/// The word that the shell reads as `name`: `name` in single quotes.
pub open spec fn quoted(name: Seq<u8>) -> Seq<u8> {
    seq![QUOTE] + escaped(name) + seq![QUOTE]
}

/// Whether a script can name the file: its name holds no NUL. Every path of
/// a file is such a name.
pub open spec fn nameable(name: Seq<u8>) -> bool {
    !name.contains(NUL)
}

/// What the shell takes a word to stand for, for words made of stretches in
/// single quotes and of bytes after a backslash: between single quotes every
/// byte stands for itself, and outside them a backslash makes the next byte
/// stand for itself. `in_quotes` says whether the word starts inside single
/// quotes. A word with any other byte outside quotes, or one that ends
/// inside quotes, is given no value here.
pub open spec fn word_value(word: Seq<u8>, in_quotes: bool) -> Option<Seq<u8>>
    decreases word.len(),
{
    if word.len() == 0 {
        if in_quotes {
            None
        } else {
            Some(Seq::<u8>::empty())
        }
    } else if in_quotes {
        if word[0] == QUOTE {
            word_value(word.skip(1), false)
        } else {
            match word_value(word.skip(1), true) {
                Some(rest) => Some(seq![word[0]] + rest),
                None => None,
            }
        }
    } else if word[0] == QUOTE {
        word_value(word.skip(1), true)
    } else if word[0] == BACKSLASH && word.len() >= 2 {
        match word_value(word.skip(2), false) {
            Some(rest) => Some(seq![word[1]] + rest),
            None => None,
        }
    } else {
        None
    }
}

/// The text of the script that copies the file `stdout_file` to standard
/// output, then the file `stderr_file` to standard error, and exits with
/// `exit_code`.
pub open spec fn script_text(stdout_file: Seq<u8>, stderr_file: Seq<u8>, exit_code: u8) -> Seq<
    u8,
> {
    ascii("#!/bin/sh -e\n/bin/cat <"@) + quoted(stdout_file) + ascii("\n/bin/cat <"@) + quoted(
        stderr_file,
    ) + ascii(" >&2\nexit "@) + decimal(exit_code as nat)
}

/// Inside single quotes, the shell reads the escaped bytes of a name as the
/// name, and goes on inside the quotes with what follows.
pub proof fn lemma_escaped_value(name: Seq<u8>, tail: Seq<u8>)
    ensures
        word_value(escaped(name) + tail, true) == match word_value(tail, true) {
            Some(rest) => Some(name + rest),
            None => None,
        },
    decreases name.len(),
{
    if name.len() == 0 {
        assert(escaped(name) + tail == tail);
        if let Some(rest) = word_value(tail, true) {
            assert(name + rest == rest);
        }
    } else {
        let front = name.drop_last();
        let b = name.last();
        let next = escaped_byte(b) + tail;
        assert(escaped(name) + tail == escaped(front) + next);
        lemma_escaped_value(front, next);
        // What the shell makes of the last byte, written as it is or as a
        // quote between two quoted stretches.
        assert(word_value(next, true) == match word_value(tail, true) {
            Some(rest) => Some(seq![b] + rest),
            None => None,
        }) by {
            if b == QUOTE {
                let after_close = next.skip(1);
                assert(after_close == seq![BACKSLASH, QUOTE, QUOTE] + tail);
                assert(after_close.skip(2) == seq![QUOTE] + tail);
                assert(after_close.skip(2).skip(1) == tail);
                assert(after_close[1] == QUOTE);
                reveal_with_fuel(word_value, 4);
            } else {
                assert(next.skip(1) == tail);
            }
        }
        if let Some(rest) = word_value(tail, true) {
            assert(front + (seq![b] + rest) == name + rest);
        }
    }
}

/// The shell reads a quoted name as the name, every byte for itself: spaces,
/// quotes and bytes with a meaning to the shell among them.
pub proof fn lemma_quoted_value(name: Seq<u8>)
    ensures
        word_value(quoted(name), false) == Some(name),
{
    let word = quoted(name);
    let close = seq![QUOTE];
    assert(word.skip(1) == escaped(name) + close);
    lemma_escaped_value(name, close);
    assert(close.skip(1) == Seq::<u8>::empty());
    assert(word_value(close, true) == Some(Seq::<u8>::empty())) by {
        reveal_with_fuel(word_value, 2);
    }
    assert(name + Seq::<u8>::empty() == name);
}

/// Reading back what [`decimal`] wrote gives the number: the exit status in
/// the script is the one that was asked for, and no two numbers are written
/// alike.
pub proof fn lemma_decimal_value(n: nat)
    ensures
        decimal_value(decimal(n)) == n,
        decimal(n).len() >= 1,
    decreases n,
{
    if n < 10 {
        let one = seq![digit(n)];
        assert(one.drop_last() == Seq::<u8>::empty());
        assert(decimal_value(one.drop_last()) == 0);
        assert(one.last() == digit(n));
    } else {
        lemma_decimal_value(n / 10);
        let all = decimal(n / 10).push(digit(n % 10));
        assert(all.drop_last() == decimal(n / 10));
        assert(all.last() == digit(n % 10));
    }
}

/// Writes an exit status in decimal.
pub fn exit_status_text(exit_code: u8) -> (text: Vec<u8>)
    ensures
        text@ == decimal(exit_code as nat),
{
    let mut text: Vec<u8> = Vec::new();
    if exit_code >= 100 {
        text.push(DIGIT_ZERO + exit_code / 100);
    }
    if exit_code >= 10 {
        text.push(DIGIT_ZERO + (exit_code / 10) % 10);
    }
    text.push(DIGIT_ZERO + exit_code % 10);
    proof {
        reveal_with_fuel(decimal, 3);
        assert(text@ =~= decimal(exit_code as nat));
    }
    text
}

/// Whether a script can name the file.
pub fn is_nameable(name: &[u8]) -> (plain: bool)
    ensures
        plain == nameable(name@),
{
    !contains_byte(name, NUL)
}

/// Writes the word that the shell reads as `name` at the end of `text`.
pub fn push_quoted(text: &mut Vec<u8>, name: &[u8])
    ensures
        final(text)@ == old(text)@ + quoted(name@),
{
    let ghost start = text@;
    text.push(QUOTE);
    let mut i: usize = 0;
    assert(name@.take(0) == Seq::<u8>::empty());
    assert(text@ =~= start + seq![QUOTE] + escaped(name@.take(0)));
    while i < name.len()
        invariant
            i <= name.len(),
            text@ == start + seq![QUOTE] + escaped(name@.take(i as int)),
        decreases name.len() - i,
    {
        proof {
            assert(name@.take(i + 1).drop_last() == name@.take(i as int));
            assert(name@.take(i + 1).last() == name@[i as int]);
        }
        let ghost before = text@;
        if name[i] == QUOTE {
            text.push(QUOTE);
            text.push(BACKSLASH);
            text.push(QUOTE);
            text.push(QUOTE);
            assert(text@ =~= before + escaped_byte(QUOTE));
        } else {
            text.push(name[i]);
            assert(text@ =~= before + escaped_byte(name@[i as int]));
        }
        assert(text@ =~= start + seq![QUOTE] + escaped(name@.take(i + 1)));
        i += 1;
    }
    proof {
        assert(name@.take(i as int) == name@);
    }
    text.push(QUOTE);
    assert(text@ =~= start + quoted(name@));
}

/// The word that the shell reads as `name`.
pub fn quote(name: &[u8]) -> (word: Vec<u8>)
    ensures
        word@ == quoted(name@),
{
    let mut word: Vec<u8> = Vec::new();
    push_quoted(&mut word, name);
    assert(Seq::<u8>::empty() + quoted(name@) == quoted(name@));
    word
}

/// Writes a text of plain characters at the end of `text`.
fn push_ascii(text: &mut Vec<u8>, plain: &str)
    requires
        is_ascii(plain),
    ensures
        final(text)@ == old(text)@ + ascii(plain@),
{
    broadcast use is_ascii_spec_bytes;

    let ghost start = text@;
    let bytes = plain.as_bytes();
    text.extend_from_slice(bytes);
    assert(text@ =~= start + ascii(plain@));
}

/// The text of the script for a mock, if a script can name the two files.
///
/// Every value of `exit_code` is an exit status that a process can have, so
/// none is refused or changed.
pub fn script(stdout_file: &[u8], stderr_file: &[u8], exit_code: u8) -> (text: Option<Vec<u8>>)
    ensures
        text is Some <==> nameable(stdout_file@) && nameable(stderr_file@),
        text matches Some(t) ==> t@ == script_text(stdout_file@, stderr_file@, exit_code),
{
    if !is_nameable(stdout_file) || !is_nameable(stderr_file) {
        return None;
    }
    proof {
        reveal_strlit("#!/bin/sh -e\n/bin/cat <");
        reveal_strlit("\n/bin/cat <");
        reveal_strlit(" >&2\nexit ");
    }
    let mut text: Vec<u8> = Vec::new();
    push_ascii(&mut text, "#!/bin/sh -e\n/bin/cat <");
    push_quoted(&mut text, stdout_file);
    push_ascii(&mut text, "\n/bin/cat <");
    push_quoted(&mut text, stderr_file);
    push_ascii(&mut text, " >&2\nexit ");
    let status = exit_status_text(exit_code);
    text.extend_from_slice(status.as_slice());
    assert(text@ =~= script_text(stdout_file@, stderr_file@, exit_code));
    Some(text)
}

/// The mode that the script is created with: its owner may read, write and
/// run it, and nobody else may do anything with it.
pub const SCRIPT_MODE: u32 = 0o700;

/// Whether `name` can be the file name of a script, and so the name of a
/// command: it is not empty, holds no slash and no NUL, and is neither `.`
/// nor `..`. A file system may still refuse such a name, for its length.
pub open spec fn valid_name(name: Seq<u8>) -> bool {
    &&& name.len() > 0
    &&& !name.contains(SLASH)
    &&& !name.contains(NUL)
    &&& name != seq![DOT]
    &&& name != seq![DOT, DOT]
}

/// Where the script of the command `name` stands: directly in `bin_dir`. A
/// slash goes between the two unless the directory is empty or ends in one.
pub open spec fn script_location(bin_dir: Seq<u8>, name: Seq<u8>) -> Seq<u8> {
    if bin_dir.len() == 0 || bin_dir.last() == SLASH {
        bin_dir + name
    } else {
        bin_dir + seq![SLASH] + name
    }
}

/// The script stands directly in its directory, under the command's name:
/// its components are those of the directory, then the name.
pub proof fn lemma_script_in_directory(bin_dir: Seq<u8>, name: Seq<u8>)
    requires
        valid_name(name),
    ensures
        components(script_location(bin_dir, name)) == components(bin_dir).push(name),
{
    let location = script_location(bin_dir, name);
    lemma_split_free(name, SLASH);
    assert(is_name(name));
    assert(name[0] != SLASH);
    if bin_dir.len() == 0 {
        lemma_components_of_empty();
        assert(location == name);
        assert(seq![name].drop_last() == Seq::<Seq<u8>>::empty());
        assert(seq![name].filter(names()) == seq![name]) by {
            reveal_with_fuel(Seq::filter, 2);
        }
        assert(Seq::<Seq<u8>>::empty() + seq![name] == Seq::<Seq<u8>>::empty().push(name));
    } else {
        // The directory is `stem`, perhaps with a slash at its end.
        let stem = if bin_dir.last() == SLASH {
            bin_dir.drop_last()
        } else {
            bin_dir
        };
        assert(location == stem + seq![SLASH] + name);
        lemma_split_around(stem, name, SLASH);
        lemma_split_pieces(stem, SLASH);
        let segments = split(stem, SLASH);
        assert(split(location, SLASH) == segments.push(name));
        segments.lemma_filter_push(name, names());
        assert(location[0] == bin_dir[0]);
        assert(segments.push(name)[0] == segments[0]);
        if bin_dir.last() == SLASH {
            assert(bin_dir == stem.push(SLASH));
            lemma_split_trailing(stem, SLASH);
            segments.lemma_filter_push(Seq::<u8>::empty(), names());
            assert(!is_name(Seq::<u8>::empty()));
            assert(segments.push(Seq::<u8>::empty())[0] == segments[0]);
        }
        assert(lead(location) == lead(bin_dir));
        assert(split(bin_dir, SLASH).filter(names()) == segments.filter(names()));
        assert(lead(bin_dir) + segments.filter(names()).push(name) == (lead(bin_dir)
            + segments.filter(names())).push(name));
    }
}

/// Whether `name` can be the name of a mocked command.
pub fn is_valid_name(name: &[u8]) -> (valid: bool)
    ensures
        valid == valid_name(name@),
{
    if name.len() == 0 {
        return false;
    }
    if name.len() == 1 && name[0] == DOT {
        assert(name@ =~= seq![DOT]);
        return false;
    }
    if name.len() == 2 && name[0] == DOT && name[1] == DOT {
        assert(name@ =~= seq![DOT, DOT]);
        return false;
    }
    proof {
        if name@ == seq![DOT] {
            assert(seq![DOT].len() == 1);
            assert(seq![DOT][0] == DOT);
        }
        if name@ == seq![DOT, DOT] {
            assert(seq![DOT, DOT].len() == 2);
            assert(seq![DOT, DOT][0] == DOT);
            assert(seq![DOT, DOT][1] == DOT);
        }
    }
    !contains_byte(name, SLASH) && !contains_byte(name, NUL)
}

/// The path of the script of the command `name` in the directory `bin_dir`,
/// if `name` can be the name of a command.
pub fn script_path(bin_dir: &[u8], name: &[u8]) -> (path: Option<Vec<u8>>)
    ensures
        path is Some <==> valid_name(name@),
        path matches Some(p) ==> p@ == script_location(bin_dir@, name@),
{
    if !is_valid_name(name) {
        return None;
    }
    let mut path = slice_to_vec(bin_dir);
    if bin_dir.len() > 0 && bin_dir[bin_dir.len() - 1] != SLASH {
        path.push(SLASH);
    }
    path.extend_from_slice(name);
    assert(path@ =~= script_location(bin_dir@, name@));
    Some(path)
}

} // verus!
