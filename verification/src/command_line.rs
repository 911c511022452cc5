//! What the command-line client computes before it talks to a server: the
//! address to connect to, the prompt, the commands of a script, and the
//! line that carries one command.

use vstd::prelude::*;
use vstd::string::{StrSliceExecFns, StringExecFns, StringSliceAdditionalSpecFns};
use crate::bytes_buf::{buffer_bytes, buffer_contents, buffer_extend, buffer_from_str, buffer_len};
use crate::octets::copy_bytes;
use crate::text::{decimal_text, push_decimal_text, trim, trimmed};

verus! {

/// The address of the server at `host` and `port`, for a plain connection
/// or for an encrypted one that accepts whatever certificate the server shows.
pub open spec fn address(host: Seq<char>, port: u16, tls: bool) -> Seq<char> {
    if tls {
        "rediss://"@ + host + ":"@ + decimal_text(port as nat) + "/#insecure"@
    } else {
        "redis://"@ + host + ":"@ + decimal_text(port as nat)
    }
}

/// The prompt of a session with the server at `host` and `port`.
pub open spec fn prompt_text(host: Seq<char>, port: u16, tls: bool) -> Seq<char> {
    if tls {
        host + ":"@ + decimal_text(port as nat) + " (TLS) $ "@
    } else {
        host + ":"@ + decimal_text(port as nat) + " $ "@
    }
}

/// The address to connect to.
pub fn connection_string(host: &str, port: u16, tls: bool) -> (s: String)
    ensures
        s@ == address(host@, port, tls),
{
    let mut s = if tls {
        String::from_str("rediss://")
    } else {
        String::from_str("redis://")
    };
    s.append(host);
    s.append(":");
    push_decimal_text(&mut s, port as u64);
    if tls {
        s.append("/#insecure");
    }
    s
}

/// The prompt of an interactive session.
pub fn prompt(host: &str, port: u16, tls: bool) -> (s: String)
    ensures
        s@ == prompt_text(host@, port, tls),
{
    let mut s = String::from_str(host);
    s.append(":");
    push_decimal_text(&mut s, port as u64);
    if tls {
        s.append(" (TLS) $ ");
    } else {
        s.append(" $ ");
    }
    s
}

/// `parts` one after the other with `sep` between each two.
pub open spec fn joined(parts: Seq<Seq<char>>, sep: Seq<char>) -> Seq<char>
    decreases parts.len(),
{
    if parts.len() == 0 {
        Seq::empty()
    } else if parts.len() == 1 {
        parts[0]
    } else {
        joined(parts.drop_last(), sep) + sep + parts.last()
    }
}

/// The views of strings.
pub open spec fn texts(strings: Seq<String>) -> Seq<Seq<char>> {
    Seq::new(strings.len(), |i: int| strings[i]@)
}

/// The one command that the words given on the command line make up: the
/// words with a blank between each two.
pub fn command_of_parameters(parameters: &Vec<String>) -> (command: String)
    ensures
        command@ == joined(texts(parameters@), " "@),
{
    let mut command = String::new();
    let mut i: usize = 0;
    let ghost all = texts(parameters@);
    assert(all.take(0) =~= Seq::<Seq<char>>::empty());
    while i < parameters.len()
        invariant
            i <= parameters.len(),
            all == texts(parameters@),
            command@ == joined(all.take(i as int), " "@),
        decreases parameters.len() - i,
    {
        proof {
            assert(all.take(i + 1).drop_last() =~= all.take(i as int));
            assert(all.take(i + 1).last() == parameters@[i as int]@);
        }
        if i > 0 {
            command.append(" ");
        }
        command.append(parameters[i].as_str());
        assert(command@ =~= joined(all.take(i + 1), " "@)) by {
            if i == 0 {
                assert(all.take(1)[0] == parameters@[0]@);
                assert(joined(all.take(0), " "@) =~= Seq::<char>::empty());
            }
        }
        i += 1;
    }
    assert(all.take(parameters.len() as int) =~= all);
    command
}

/// The pieces that `s` falls into where it is cut at each `sep`. There is
/// one piece more than there are separators; a piece may be empty.
pub open spec fn split_on(s: Seq<char>, sep: char) -> Seq<Seq<char>>
    decreases s.len(),
{
    if s.len() == 0 {
        seq![Seq::empty()]
    } else {
        let front = split_on(s.drop_last(), sep);
        if s.last() == sep {
            front.push(Seq::empty())
        } else {
            front.update(front.len() - 1, front.last().push(s.last()))
        }
    }
}

/// The views of string slices.
pub open spec fn slices(pieces: Seq<&str>) -> Seq<Seq<char>> {
    Seq::new(pieces.len(), |i: int| pieces[i]@)
}

proof fn lemma_split_nonempty(s: Seq<char>, sep: char)
    ensures
        split_on(s, sep).len() >= 1,
    decreases s.len(),
{
    if s.len() > 0 {
        lemma_split_nonempty(s.drop_last(), sep);
    }
}

/// The lines of `content`: what stands between its line feeds.
pub fn split_lines(content: &str) -> (lines: Vec<&str>)
    ensures
        slices(lines@) == split_on(content@, '\n'),
{
    let total = content.unicode_len();
    let mut lines: Vec<&str> = Vec::new();
    let mut start: usize = 0;
    let mut i: usize = 0;
    proof {
        assert(content@.take(0) =~= Seq::<char>::empty());
        assert(content@.subrange(0, 0) =~= Seq::<char>::empty());
        assert(split_on(content@.take(0), '\n') =~= slices(lines@).push(
            content@.subrange(0, 0),
        ));
    }
    for c in it: content.chars()
        invariant
            i == it.index(),
            it.seq() == content@,
            total == content@.len(),
            start <= i <= total,
            split_on(content@.take(i as int), '\n') == slices(lines@).push(
                content@.subrange(start as int, i as int),
            ),
    {
        proof {
            assert(content@.take(i + 1).drop_last() =~= content@.take(i as int));
            assert(content@.take(i + 1).last() == c);
        }
        let ghost before = slices(lines@);
        let ghost piece = content@.subrange(start as int, i as int);
        if c == '\n' {
            lines.push(content.substring_char(start, i));
            start = i + 1;
            proof {
                assert(slices(lines@) =~= before.push(piece));
                assert(content@.subrange(start as int, i + 1) =~= Seq::<char>::empty());
            }
        } else {
            proof {
                assert(content@.subrange(start as int, i + 1) =~= piece.push(c));
                assert(before.push(piece).update(before.len() as int, piece.push(c))
                    =~= before.push(piece.push(c)));
            }
        }
        i += 1;
    }
    let ghost before = slices(lines@);
    lines.push(content.substring_char(start, total));
    proof {
        assert(content@.take(total as int) =~= content@);
        assert(slices(lines@) =~= before.push(content@.subrange(start as int, total as int)));
    }
    lines
}

/// The commands among `lines`, given with their white space taken off:
/// those of which something is left.
pub open spec fn commands_among(stripped: Seq<Seq<char>>) -> Seq<Seq<char>> {
    stripped.filter(|line: Seq<char>| line.len() > 0)
}

/// Adds a line, given with its white space taken off, to the commands of a
/// script, unless nothing is left of it.
pub fn keep_command(commands: &mut Vec<String>, stripped: &str)
    ensures
        texts(final(commands)@) == if stripped@.len() > 0 {
            texts(old(commands)@).push(stripped@)
        } else {
            texts(old(commands)@)
        },
{
    if stripped.unicode_len() > 0 {
        commands.push(String::from_str(stripped));
        assert(texts(commands@) =~= texts(old(commands)@).push(stripped@));
    } else {
        assert(texts(commands@) =~= texts(old(commands)@));
    }
}

/// The lines of a script without the white space around each.
pub open spec fn stripped_lines(content: Seq<char>) -> Seq<Seq<char>> {
    split_on(content, '\n').map_values(|line: Seq<char>| trimmed(line))
}

/// The commands of a script: each line is a command, without the white
/// space around it; lines that hold nothing else are passed over.
pub fn file_commands(content: &str) -> (commands: Vec<String>)
    ensures
        texts(commands@) == commands_among(stripped_lines(content@)),
{
    let lines = split_lines(content);
    let ghost all = stripped_lines(content@);
    let mut commands: Vec<String> = Vec::new();
    let mut i: usize = 0;
    proof {
        assert(all.take(0) =~= Seq::<Seq<char>>::empty());
        assert(texts(commands@) =~= Seq::<Seq<char>>::empty());
        reveal(Seq::filter);
    }
    assert(all.take(0).filter(|line: Seq<char>| line.len() > 0) =~= Seq::<Seq<char>>::empty());
    while i < lines.len()
        invariant
            i <= lines.len(),
            slices(lines@) == split_on(content@, '\n'),
            all == stripped_lines(content@),
            all.len() == lines@.len(),
            texts(commands@) == commands_among(all.take(i as int)),
        decreases lines.len() - i,
    {
        let stripped = trim(lines[i]);
        proof {
            assert(slices(lines@)[i as int] == lines@[i as int]@);
            assert(all[i as int] == stripped@);
            assert(all.take(i + 1) =~= all.take(i as int).push(stripped@));
            all.take(i as int).lemma_filter_push(stripped@, |line: Seq<char>| line.len() > 0);
        }
        keep_command(&mut commands, stripped);
        i += 1;
    }
    assert(all.take(lines.len() as int) =~= all);
    commands
}

/// The line that carries a command: its bytes, then CR LF.
pub open spec fn packed(command: Seq<char>) -> Seq<u8> {
    vstd::utf8::encode_utf8(command) + seq![13u8, 10u8]
}

/// Whether a command is short enough for its line to be held in memory.
pub open spec fn packable(command: Seq<char>) -> bool {
    vstd::utf8::encode_utf8(command).len() + 2 <= isize::MAX
}

/// Packs a command that has no white space around it into the line that
/// is sent to the server. Gives `None` for a command that is too long for
/// its line to be held in memory, and for no other.
pub fn pack_stripped(command: &str) -> (line: Option<Vec<u8>>)
    ensures
        match line {
            Some(bytes) => packable(command@) && bytes@ == packed(command@),
            None => !packable(command@),
        },
{
    let mut line = buffer_from_str(command);
    if buffer_len(&line) > isize::MAX as usize - 2 {
        return None;
    }
    let end: [u8; 2] = [13, 10];
    assert(end@ =~= seq![13u8, 10u8]);
    buffer_extend(&mut line, end.as_slice());
    Some(copy_bytes(buffer_bytes(&line)))
}

/// Packs a command as it was typed into the line that is sent to the
/// server: the white space around it is taken off first.
pub fn pack_command(command: &str) -> (line: Option<Vec<u8>>)
    ensures
        match line {
            Some(bytes) => packable(trimmed(command@)) && bytes@ == packed(trimmed(command@)),
            None => !packable(trimmed(command@)),
        },
{
    pack_stripped(trim(command))
}

} // verus!
