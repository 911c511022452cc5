//! The wire format. A command is sent as an array of byte strings, each
//! written with its length in front and every header line ended by CR LF,
//! or as a line of plain words. A reply is sent in one of seven forms.

use vstd::prelude::*;
use crate::error_codes::ErrorKind;
use crate::octets::copy_bytes;
use vstd::slice::slice_subrange;

verus! {

/// The most arguments a command may have.
pub const MAX_ARGS: u64 = 1_048_576;

/// The most bytes one argument may have.
pub const MAX_BULK: u64 = 536_870_912;

/// The most digits a length field may have.
pub const MAX_DIGITS: usize = 10;

/// Carriage return, the first of the two bytes that end a line.
pub const CR: u8 = 13;

/// Line feed, the second of the two bytes that end a line.
pub const LF: u8 = 10;

/// The byte that opens a command.
pub const ARRAY: u8 = 42;

/// The byte that opens an argument.
pub const BULK: u8 = 36;

/// The digit zero.
pub const ZERO: u8 = 48;

/// The blank that parts the words of a line.
pub const SPACE: u8 = 32;

/// The most bytes the line of a command that is sent as plain words may
/// have, not counting the CR LF that ends it.
pub const MAX_INLINE: usize = 65_536;

/// A command: its name and arguments, as sent.
#[derive(Debug, PartialEq, Eq)]
pub struct Command {
    pub args: Vec<Vec<u8>>,
}

impl View for Command {
    type V = Seq<Seq<u8>>;

    open spec fn view(&self) -> Seq<Seq<u8>> {
        Seq::new(self.args@.len(), |i: int| self.args@[i]@)
    }
}

/// Whether `b` is a decimal digit.
pub open spec fn is_digit(b: u8) -> bool {
    48 <= b <= 57
}

/// The decimal numeral of `n`, without leading zeros.
pub open spec fn decimal(n: nat) -> Seq<u8>
    decreases n,
{
    if n < 10 {
        seq![(48 + n) as u8]
    } else {
        decimal(n / 10).push((48 + n % 10) as u8)
    }
}

/// The number that a string of digits denotes.
pub open spec fn digits_value(s: Seq<u8>) -> nat
    decreases s.len(),
{
    if s.len() == 0 {
        0
    } else {
        digits_value(s.drop_last()) * 10 + (s.last() - 48) as nat
    }
}

/// Whether `s` is a length field: one to ten digits, the first of them a
/// zero only if it is the only one.
pub open spec fn is_numeral(s: Seq<u8>) -> bool {
    &&& 1 <= s.len() <= MAX_DIGITS
    &&& forall|i: int| 0 <= i < s.len() ==> is_digit(#[trigger] s[i])
    &&& s.len() > 1 ==> s[0] != 48
}

/// Where the first CR LF at or after `from` begins, if there is one.
pub open spec fn line_end(buf: Seq<u8>, from: int) -> Option<int>
    decreases buf.len() - from,
{
    if from < 0 || from + 1 >= buf.len() {
        None
    } else if buf[from] == CR && buf[from + 1] == LF {
        Some(from)
    } else {
        line_end(buf, from + 1)
    }
}

/// What stands at one place of a buffer where a header line is due.
pub enum HeaderAt {
    /// A header with this length field; what follows it starts at `next`.
    Value { value: nat, next: int },
    /// The line is not all there yet.
    Incomplete,
    /// No header line.
    Malformed,
}

/// The header line that starts with `marker` at `from`.
pub open spec fn header_at(buf: Seq<u8>, from: int, marker: u8) -> HeaderAt {
    if from >= buf.len() {
        HeaderAt::Incomplete
    } else if buf[from] != marker {
        HeaderAt::Malformed
    } else {
        match line_end(buf, from + 1) {
            None => HeaderAt::Incomplete,
            Some(end) => {
                let field = buf.subrange(from + 1, end);
                if is_numeral(field) {
                    HeaderAt::Value { value: digits_value(field), next: end + 2 }
                } else {
                    HeaderAt::Malformed
                }
            },
        }
    }
}

/// What a buffer holds at its front.
pub enum Parsed {
    /// A whole command, which takes up the first `consumed` bytes.
    Complete { command: Seq<Seq<u8>>, consumed: int },
    /// The beginning of a command; more bytes are needed.
    Incomplete,
    /// Bytes that no command begins with.
    Malformed,
}

/// `p` with `done` put in front of its command.
pub open spec fn after_args(done: Seq<Seq<u8>>, p: Parsed) -> Parsed {
    match p {
        Parsed::Complete { command, consumed } => Parsed::Complete {
            command: done + command,
            consumed,
        },
        other => other,
    }
}

/// The `count` arguments that start at `from`.
pub open spec fn parse_args(buf: Seq<u8>, from: int, count: nat) -> Parsed
    decreases count,
{
    if count == 0 {
        Parsed::Complete { command: Seq::empty(), consumed: from }
    } else {
        match header_at(buf, from, BULK) {
            HeaderAt::Incomplete => Parsed::Incomplete,
            HeaderAt::Malformed => Parsed::Malformed,
            HeaderAt::Value { value, next } => {
                if value > MAX_BULK {
                    Parsed::Malformed
                } else if buf.len() < next + value + 2 {
                    Parsed::Incomplete
                } else if buf[next + value] != CR || buf[next + value + 1] != LF {
                    Parsed::Malformed
                } else {
                    after_args(
                        seq![buf.subrange(next, next + value)],
                        parse_args(buf, next + value + 2, (count - 1) as nat),
                    )
                }
            },
        }
    }
}

/// The words of a line: what stands between its blanks.
pub open spec fn words(line: Seq<u8>) -> Seq<Seq<u8>>
    decreases line.len(),
{
    if line.len() == 0 {
        Seq::empty()
    } else {
        let front = words(line.drop_last());
        if line.last() == SPACE {
            front
        } else if line.len() >= 2 && line[line.len() - 2] != SPACE {
            front.update(front.len() - 1, front.last().push(line.last()))
        } else {
            front.push(seq![line.last()])
        }
    }
}

/// The command that is sent as plain words at the front of `buf`: a line
/// of at most `MAX_INLINE` bytes, ended by CR LF, whose words are the
/// command's name and arguments.
pub open spec fn parse_inline(buf: Seq<u8>) -> Parsed {
    match line_end(buf, 0) {
        None => if buf.len() > MAX_INLINE {
            Parsed::Malformed
        } else {
            Parsed::Incomplete
        },
        Some(end) => if end > MAX_INLINE {
            Parsed::Malformed
        } else {
            Parsed::Complete { command: words(buf.subrange(0, end)), consumed: end + 2 }
        },
    }
}

/// The command at the front of `buf`: one that is sent as an array if the
/// first byte says so, else one that is sent as plain words.
pub open spec fn parse(buf: Seq<u8>) -> Parsed {
    if buf.len() == 0 {
        Parsed::Incomplete
    } else if buf[0] == ARRAY {
        parse_array(buf)
    } else {
        parse_inline(buf)
    }
}

/// The command that is sent as an array at the front of `buf`.
pub open spec fn parse_array(buf: Seq<u8>) -> Parsed {
    match header_at(buf, 0, ARRAY) {
        HeaderAt::Incomplete => Parsed::Incomplete,
        HeaderAt::Malformed => Parsed::Malformed,
        HeaderAt::Value { value, next } => {
            if value > MAX_ARGS {
                Parsed::Malformed
            } else {
                parse_args(buf, next, value)
            }
        },
    }
}

/// A header with its length field, as read.
#[derive(Clone, Copy, Debug, PartialEq, Eq)]
pub enum Header {
    Value { value: u64, next: usize },
    Incomplete,
    Malformed,
}

impl View for Header {
    type V = HeaderAt;

    open spec fn view(&self) -> HeaderAt {
        match self {
            Header::Value { value, next } => HeaderAt::Value {
                value: *value as nat,
                next: *next as int,
            },
            Header::Incomplete => HeaderAt::Incomplete,
            Header::Malformed => HeaderAt::Malformed,
        }
    }
}

/// What was read from the front of a buffer.
#[derive(Debug, PartialEq, Eq)]
pub enum Frame {
    /// A whole command, which takes up the first `consumed` bytes.
    Complete { command: Command, consumed: usize },
    /// The beginning of a command; more bytes are needed.
    Incomplete,
    /// Bytes that no command begins with.
    Malformed,
}

impl View for Frame {
    type V = Parsed;

    open spec fn view(&self) -> Parsed {
        match self {
            Frame::Complete { command, consumed } => Parsed::Complete {
                command: command@,
                consumed: *consumed as int,
            },
            Frame::Incomplete => Parsed::Incomplete,
            Frame::Malformed => Parsed::Malformed,
        }
    }
}

/// Ten to the power of `k`.
pub open spec fn pow10(k: nat) -> nat
    decreases k,
{
    if k == 0 {
        1
    } else {
        10 * pow10((k - 1) as nat)
    }
}

proof fn lemma_pow10_bound(k: nat)
    requires
        k <= 10,
    ensures
        pow10(k) <= 10_000_000_000,
    decreases 10 - k,
{
    if k == 10 {
        reveal_with_fuel(pow10, 11);
    } else {
        lemma_pow10_bound(k + 1);
    }
}

/// Finds the first CR LF at or after `from`.
pub fn find_line_end(buf: &[u8], from: usize) -> (end: Option<usize>)
    ensures
        match end {
            Some(e) => line_end(buf@, from as int) == Some(e as int) && from <= e && e + 1
                < buf.len(),
            None => line_end(buf@, from as int) is None,
        },
{
    if from > buf.len() {
        return None;
    }
    let mut i: usize = from;
    while buf.len() - i >= 2
        invariant
            from <= i <= buf.len(),
            line_end(buf@, from as int) == line_end(buf@, i as int),
        decreases buf.len() - i,
    {
        if buf[i] == CR && buf[i + 1] == LF {
            return Some(i);
        }
        i += 1;
    }
    None
}

/// Reads the header line that starts with `marker` at `from`.
pub fn read_header(buf: &[u8], from: usize, marker: u8) -> (h: Header)
    ensures
        h@ == header_at(buf@, from as int, marker),
        h matches Header::Value { value, next } ==> from + 3 < next <= buf.len(),
{
    if from >= buf.len() {
        return Header::Incomplete;
    }
    if buf[from] != marker {
        return Header::Malformed;
    }
    let start: usize = from + 1;
    match find_line_end(buf, start) {
        None => Header::Incomplete,
        Some(end) => {
            let ghost field = buf@.subrange(start as int, end as int);
            let len: usize = end - start;
            if len == 0 || len > MAX_DIGITS {
                return Header::Malformed;
            }
            if len > 1 && buf[start] == ZERO {
                assert(field[0] == 48);
                return Header::Malformed;
            }
            let mut value: u64 = 0;
            let mut i: usize = start;
            assert(field.take(0) =~= Seq::<u8>::empty());
            while i < end
                invariant
                    start <= i <= end < buf.len(),
                    start == from + 1,
                    buf@[from as int] == marker,
                    line_end(buf@, start as int) == Some(end as int),
                    1 <= end - start <= 10,
                    end - start > 1 ==> field[0] != 48,
                    field == buf@.subrange(start as int, end as int),
                    forall|j: int| 0 <= j < i - start ==> is_digit(#[trigger] field[j]),
                    value == digits_value(field.take(i - start)),
                    value < pow10((i - start) as nat),
                decreases end - i,
            {
                let b = buf[i];
                if b < 48 || b > 57 {
                    assert(!is_digit(field[i - start]));
                    return Header::Malformed;
                }
                proof {
                    lemma_pow10_bound((i - start) as nat);
                    assert(field.take(i - start + 1).drop_last() =~= field.take(i - start));
                }
                value = value * 10 + (b - 48) as u64;
                i += 1;
            }
            assert(field.take(end - start) =~= field);
            Header::Value { value, next: end + 2 }
        },
    }
}

/// Cuts a line into its words.
pub fn split_words(line: &[u8]) -> (found: Vec<Vec<u8>>)
    ensures
        (Command { args: found })@ == words(line@),
{
    let mut found: Vec<Vec<u8>> = Vec::new();
    let mut word: Vec<u8> = Vec::new();
    let mut i: usize = 0;
    let ghost mut done: Seq<Seq<u8>> = Seq::empty();
    assert(line@.take(0) =~= Seq::<u8>::empty());
    assert((Command { args: found })@ =~= done);
    while i < line.len()
        invariant
            i <= line.len(),
            done == (Command { args: found })@,
            words(line@.take(i as int)) == if word@.len() > 0 {
                done.push(word@)
            } else {
                done
            },
            word@.len() > 0 ==> i > 0 && line@[i - 1] != SPACE,
            word@.len() == 0 ==> i == 0 || line@[i - 1] == SPACE,
        decreases line.len() - i,
    {
        let b = line[i];
        proof {
            let next = line@.take(i + 1);
            assert(next.drop_last() =~= line@.take(i as int));
            assert(next.last() == b);
            if i > 0 {
                assert(next[next.len() - 2] == line@[i - 1]);
            }
        }
        if b == SPACE {
            if word.len() > 0 {
                proof {
                    done = done.push(word@);
                }
                found.push(word);
                word = Vec::new();
                assert((Command { args: found })@ =~= done);
            }
        } else {
            proof {
                if word@.len() > 0 {
                    assert(done.push(word@).update(done.len() as int, word@.push(b)) =~= done.push(
                        word@.push(b),
                    ));
                } else {
                    assert(word@.push(b) =~= seq![b]);
                }
            }
            word.push(b);
        }
        i += 1;
    }
    assert(line@.take(line.len() as int) =~= line@);
    if word.len() > 0 {
        proof {
            done = done.push(word@);
        }
        found.push(word);
        assert((Command { args: found })@ =~= done);
    }
    found
}

/// Reads the command that is sent as plain words at the front of `buf`.
pub fn parse_inline_frame(buf: &[u8]) -> (frame: Frame)
    ensures
        frame@ == parse_inline(buf@),
        frame matches Frame::Complete { consumed, .. } ==> 0 < consumed <= buf.len(),
{
    match find_line_end(buf, 0) {
        None => {
            if buf.len() > MAX_INLINE {
                Frame::Malformed
            } else {
                Frame::Incomplete
            }
        },
        Some(end) => {
            if end > MAX_INLINE {
                Frame::Malformed
            } else {
                let args = split_words(slice_subrange(buf, 0, end));
                Frame::Complete { command: Command { args }, consumed: end + 2 }
            }
        },
    }
}

/// Reads the command at the front of `buf`.
pub fn parse_frame(buf: &[u8]) -> (frame: Frame)
    ensures
        frame@ == parse(buf@),
        frame matches Frame::Complete { consumed, .. } ==> 0 < consumed <= buf.len(),
{
    if buf.len() == 0 {
        Frame::Incomplete
    } else if buf[0] == ARRAY {
        parse_array_frame(buf)
    } else {
        parse_inline_frame(buf)
    }
}

/// Reads the command that is sent as an array at the front of `buf`.
pub fn parse_array_frame(buf: &[u8]) -> (frame: Frame)
    ensures
        frame@ == parse_array(buf@),
        frame matches Frame::Complete { consumed, .. } ==> 0 < consumed <= buf.len(),
{
    let (count, first) = match read_header(buf, 0, ARRAY) {
        Header::Incomplete => {
            return Frame::Incomplete;
        },
        Header::Malformed => {
            return Frame::Malformed;
        },
        Header::Value { value, next } => (value, next),
    };
    if count > MAX_ARGS {
        return Frame::Malformed;
    }
    let mut args: Vec<Vec<u8>> = Vec::new();
    let mut pos: usize = first;
    let mut left: u64 = count;
    let ghost mut done: Seq<Seq<u8>> = Seq::empty();
    assert(after_args(done, parse_args(buf@, pos as int, left as nat)) == parse_args(
        buf@,
        pos as int,
        left as nat,
    )) by {
        let p = parse_args(buf@, pos as int, left as nat);
        if let Parsed::Complete { command, consumed } = p {
            assert(done + command =~= command);
        }
    }
    while left > 0
        invariant
            0 < pos <= buf.len(),
            done == (Command { args })@,
            parse_array(buf@) == after_args(done, parse_args(buf@, pos as int, left as nat)),
        decreases left,
    {
        let (len, start) = match read_header(buf, pos, BULK) {
            Header::Incomplete => {
                return Frame::Incomplete;
            },
            Header::Malformed => {
                return Frame::Malformed;
            },
            Header::Value { value, next } => (value, next),
        };
        if len > MAX_BULK {
            return Frame::Malformed;
        }
        let size: usize = len as usize;
        if buf.len() - start < size || buf.len() - start - size < 2 {
            return Frame::Incomplete;
        }
        if buf[start + size] != CR || buf[start + size + 1] != LF {
            return Frame::Malformed;
        }
        let arg = copy_bytes(slice_subrange(buf, start, start + size));
        proof {
            let rest = parse_args(buf@, start + size + 2, (left - 1) as nat);
            assert(after_args(done, after_args(seq![arg@], rest)) == after_args(
                done.push(arg@),
                rest,
            )) by {
                if let Parsed::Complete { command, consumed } = rest {
                    assert(done + (seq![arg@] + command) =~= done.push(arg@) + command);
                }
            }
            done = done.push(arg@);
        }
        args.push(arg);
        assert((Command { args })@ =~= done);
        pos = start + size + 2;
        left -= 1;
    }
    assert(done + Seq::<Seq<u8>>::empty() =~= done);
    Frame::Complete { command: Command { args }, consumed: pos }
}

/// The two bytes that end a line.
pub open spec fn crlf() -> Seq<u8> {
    seq![CR, LF]
}

/// A header line: the marker, the length field, CR LF.
pub open spec fn encoded_header(marker: u8, n: nat) -> Seq<u8> {
    seq![marker] + decimal(n) + crlf()
}

/// One argument on the wire: its header, its bytes, CR LF.
pub open spec fn encoded_bulk(arg: Seq<u8>) -> Seq<u8> {
    encoded_header(BULK, arg.len()) + arg + crlf()
}

/// Arguments on the wire, one after the other.
pub open spec fn encoded_args(args: Seq<Seq<u8>>) -> Seq<u8>
    decreases args.len(),
{
    if args.len() == 0 {
        Seq::empty()
    } else {
        encoded_bulk(args[0]) + encoded_args(args.drop_first())
    }
}

/// A command on the wire: the header with the number of arguments, then
/// the arguments.
pub open spec fn encoded_command(args: Seq<Seq<u8>>) -> Seq<u8> {
    encoded_header(ARRAY, args.len()) + encoded_args(args)
}

/// Whether a command is within the limits of the wire format.
pub open spec fn sendable(args: Seq<Seq<u8>>) -> bool {
    &&& args.len() <= MAX_ARGS
    &&& forall|i: int| 0 <= i < args.len() ==> (#[trigger] args[i]).len() <= MAX_BULK
}

/// Whether `piece` stands in `buf` at `from`.
pub open spec fn occurs_at(buf: Seq<u8>, from: int, piece: Seq<u8>) -> bool {
    &&& 0 <= from
    &&& from + piece.len() <= buf.len()
    &&& buf.subrange(from, from + piece.len()) == piece
}

proof fn lemma_occurs_split(buf: Seq<u8>, from: int, a: Seq<u8>, b: Seq<u8>)
    ensures
        occurs_at(buf, from, a + b) <==> occurs_at(buf, from, a) && occurs_at(
            buf,
            from + a.len(),
            b,
        ),
{
    if occurs_at(buf, from, a + b) {
        assert(buf.subrange(from, from + a.len()) =~= (a + b).subrange(0, a.len() as int));
        assert((a + b).subrange(0, a.len() as int) =~= a);
        assert(buf.subrange(from + a.len(), from + a.len() + b.len()) =~= (a + b).subrange(
            a.len() as int,
            (a + b).len() as int,
        ));
        assert((a + b).subrange(a.len() as int, (a + b).len() as int) =~= b);
    }
    if occurs_at(buf, from, a) && occurs_at(buf, from + a.len(), b) {
        assert(buf.subrange(from, from + (a + b).len()) =~= buf.subrange(from, from + a.len())
            + buf.subrange(from + a.len(), from + a.len() + b.len()));
    }
}

proof fn lemma_decimal_props(n: nat, k: nat)
    requires
        1 <= k,
        n < pow10(k),
    ensures
        1 <= decimal(n).len() <= k,
        forall|i: int| 0 <= i < decimal(n).len() ==> is_digit(#[trigger] decimal(n)[i]),
        decimal(n).len() > 1 ==> decimal(n)[0] != 48,
        n > 0 ==> decimal(n)[0] != 48,
        digits_value(decimal(n)) == n,
    decreases n,
{
    let d = decimal(n);
    if n < 10 {
        assert(d.drop_last() =~= Seq::<u8>::empty());
        reveal_with_fuel(digits_value, 2);
    } else {
        assert(k >= 2) by {
            reveal_with_fuel(pow10, 2);
        }
        let front = decimal(n / 10);
        assert(n / 10 < pow10((k - 1) as nat));
        lemma_decimal_props(n / 10, (k - 1) as nat);
        assert(d.drop_last() =~= front);
        assert(d[0] == front[0]);
    }
}

proof fn lemma_numeral_canonical(s: Seq<u8>)
    requires
        s.len() >= 1,
        forall|i: int| 0 <= i < s.len() ==> is_digit(#[trigger] s[i]),
        s.len() > 1 ==> s[0] != 48,
    ensures
        decimal(digits_value(s)) == s,
        s[0] != 48 ==> digits_value(s) >= 1,
    decreases s.len(),
{
    let front = s.drop_last();
    let d = (s.last() - 48) as nat;
    if s.len() == 1 {
        assert(front =~= Seq::<u8>::empty());
        reveal_with_fuel(digits_value, 2);
        assert(digits_value(s) == d);
        assert(decimal(d) =~= s);
    } else {
        assert(front[0] == s[0]);
        lemma_numeral_canonical(front);
        let v = digits_value(front);
        assert(digits_value(s) == v * 10 + d);
        assert((v * 10 + d) / 10 == v);
        assert((v * 10 + d) % 10 == d);
        assert(decimal(v * 10 + d) == decimal(v).push((48 + d) as u8));
        assert(front.push(s.last()) =~= s);
    }
}

proof fn lemma_line_end_found(buf: Seq<u8>, from: int, end: int)
    requires
        0 <= from <= end,
        end + 1 < buf.len(),
        buf[end] == CR,
        buf[end + 1] == LF,
        forall|k: int| from <= k < end ==> !(#[trigger] buf[k] == CR && buf[k + 1] == LF),
    ensures
        line_end(buf, from) == Some(end),
    decreases end - from,
{
    if from < end {
        lemma_line_end_found(buf, from + 1, end);
    }
}

proof fn lemma_line_end_props(buf: Seq<u8>, from: int)
    requires
        0 <= from,
    ensures
        line_end(buf, from) matches Some(end) ==> from <= end && end + 1 < buf.len() && buf[end]
            == CR && buf[end + 1] == LF && forall|k: int|
            from <= k < end ==> !(#[trigger] buf[k] == CR && buf[k + 1] == LF),
    decreases buf.len() - from,
{
    if from + 1 < buf.len() && !(buf[from] == CR && buf[from + 1] == LF) {
        lemma_line_end_props(buf, from + 1);
    }
}

proof fn lemma_pow10_ten()
    ensures
        pow10(10) == 10_000_000_000,
{
    reveal_with_fuel(pow10, 11);
}

proof fn lemma_read_encoded_header(buf: Seq<u8>, from: int, marker: u8, n: nat)
    requires
        occurs_at(buf, from, encoded_header(marker, n)),
        n < 10_000_000_000,
    ensures
        header_at(buf, from, marker) == (HeaderAt::Value {
            value: n,
            next: from + encoded_header(marker, n).len(),
        }),
        encoded_header(marker, n).len() == decimal(n).len() + 3,
{
    lemma_pow10_ten();
    lemma_decimal_props(n, 10);
    let d = decimal(n);
    let enc = encoded_header(marker, n);
    let end = from + 1 + d.len();
    assert(enc.len() == d.len() + 3);
    assert forall|k: int| 0 <= k < enc.len() implies buf[from + k] == enc[k] by {
        assert(buf.subrange(from, from + enc.len())[k] == enc[k]);
    }
    assert(buf[from] == enc[0]);
    assert(buf[end] == enc[end - from]);
    assert(buf[end + 1] == enc[end - from + 1]);
    assert forall|k: int| from + 1 <= k < end implies #[trigger] buf[k] != CR by {
        assert(buf[from + (k - from)] == enc[k - from]);
        assert(enc[k - from] == d[k - from - 1]);
        assert(is_digit(d[k - from - 1]));
    }
    lemma_line_end_found(buf, from + 1, end);
    assert(buf.subrange(from + 1, end) =~= d) by {
        assert forall|k: int| 0 <= k < d.len() implies buf.subrange(from + 1, end)[k] == d[k] by {
            assert(buf[from + (k + 1)] == enc[k + 1]);
        }
    }
}

proof fn lemma_header_encoded(buf: Seq<u8>, from: int, marker: u8)
    requires
        0 <= from,
    ensures
        header_at(buf, from, marker) matches HeaderAt::Value { value, next } ==> occurs_at(
            buf,
            from,
            encoded_header(marker, value),
        ) && next == from + encoded_header(marker, value).len() && value < 10_000_000_000,
{
    if let HeaderAt::Value { value, next } = header_at(buf, from, marker) {
        lemma_line_end_props(buf, from + 1);
        let end = line_end(buf, from + 1)->Some_0;
        let field = buf.subrange(from + 1, end);
        lemma_numeral_canonical(field);
        lemma_pow10_ten();
        let enc = encoded_header(marker, value);
        assert(enc =~= seq![marker] + field + crlf());
        assert(buf.subrange(from, from + enc.len()) =~= enc);
        lemma_numeral_bound(field);
    }
}

proof fn lemma_numeral_bound(s: Seq<u8>)
    requires
        forall|i: int| 0 <= i < s.len() ==> is_digit(#[trigger] s[i]),
    ensures
        digits_value(s) < pow10(s.len()),
        s.len() <= 10 ==> digits_value(s) < 10_000_000_000,
    decreases s.len(),
{
    if s.len() > 0 {
        let front = s.drop_last();
        assert forall|i: int| 0 <= i < front.len() implies is_digit(#[trigger] front[i]) by {
            assert(front[i] == s[i]);
        }
        lemma_numeral_bound(front);
        assert(is_digit(s[s.len() - 1]));
    }
    if s.len() <= 10 {
        lemma_pow10_bound(s.len());
    }
}

proof fn lemma_parse_encoded_args(buf: Seq<u8>, from: int, args: Seq<Seq<u8>>)
    requires
        forall|i: int| 0 <= i < args.len() ==> (#[trigger] args[i]).len() <= MAX_BULK,
        occurs_at(buf, from, encoded_args(args)),
    ensures
        parse_args(buf, from, args.len()) == (Parsed::Complete {
            command: args,
            consumed: from + encoded_args(args).len(),
        }),
    decreases args.len(),
{
    if args.len() == 0 {
        assert(args =~= Seq::<Seq<u8>>::empty());
    } else {
        let a = args[0];
        let rest = args.drop_first();
        let head = encoded_header(BULK, a.len());
        lemma_occurs_split(buf, from, encoded_bulk(a), encoded_args(rest));
        lemma_occurs_split(buf, from, head + a, crlf());
        lemma_occurs_split(buf, from, head, a);
        lemma_read_encoded_header(buf, from, BULK, a.len());
        let next = from + head.len();
        let after = next + a.len();
        assert(buf[after] == CR && buf[after + 1] == LF) by {
            assert(buf.subrange(after, after + 2)[0] == crlf()[0]);
            assert(buf.subrange(after, after + 2)[1] == crlf()[1]);
        }
        assert forall|i: int| 0 <= i < rest.len() implies (#[trigger] rest[i]).len() <= MAX_BULK by {
            assert(rest[i] == args[i + 1]);
        }
        assert(encoded_bulk(a).len() == head.len() + a.len() + 2);
        lemma_parse_encoded_args(buf, after + 2, rest);
        assert(seq![a] + rest =~= args);
    }
}

proof fn lemma_parsed_args_encoded(buf: Seq<u8>, from: int, count: nat)
    requires
        0 <= from <= buf.len(),
    ensures
        parse_args(buf, from, count) matches Parsed::Complete { command, consumed } ==> {
            &&& command.len() == count
            &&& forall|i: int| 0 <= i < command.len() ==> (#[trigger] command[i]).len() <= MAX_BULK
            &&& occurs_at(buf, from, encoded_args(command))
            &&& consumed == from + encoded_args(command).len()
        },
    decreases count,
{
    if count == 0 {
        assert(buf.subrange(from, from) =~= Seq::<u8>::empty());
    } else if let Parsed::Complete { command, consumed } = parse_args(buf, from, count) {
        lemma_header_encoded(buf, from, BULK);
        let value = header_at(buf, from, BULK)->value;
        let next = header_at(buf, from, BULK)->next;
        let a = buf.subrange(next, next + value);
        let head = encoded_header(BULK, value);
        let after = next + value;
        lemma_parsed_args_encoded(buf, after + 2, (count - 1) as nat);
        let rest = parse_args(buf, after + 2, (count - 1) as nat)->command;
        assert(command == seq![a] + rest);
        assert(command[0] == a);
        assert(command.drop_first() =~= rest);
        assert forall|i: int| 0 <= i < command.len() implies (#[trigger] command[i]).len()
            <= MAX_BULK by {
            if i > 0 {
                assert(command[i] == rest[i - 1]);
            }
        }
        assert(occurs_at(buf, after, crlf())) by {
            assert(buf.subrange(after, after + 2) =~= crlf());
        }
        lemma_occurs_split(buf, from, head, a);
        lemma_occurs_split(buf, from, head + a, crlf());
        lemma_occurs_split(buf, from, encoded_bulk(a), encoded_args(rest));
    }
}

/// Reading what was written gives back the command: a command within the
/// limits, written out and followed by anything, is read as that command,
/// and as many bytes are consumed as were written.
pub proof fn lemma_parse_encoded(args: Seq<Seq<u8>>, rest: Seq<u8>)
    requires
        sendable(args),
    ensures
        parse(encoded_command(args) + rest) == (Parsed::Complete {
            command: args,
            consumed: encoded_command(args).len() as int,
        }),
{
    let buf = encoded_command(args) + rest;
    let head = encoded_header(ARRAY, args.len());
    assert(occurs_at(buf, 0, encoded_command(args))) by {
        assert(buf.subrange(0, encoded_command(args).len() as int) =~= encoded_command(args));
    }
    lemma_occurs_split(buf, 0, head, encoded_args(args));
    lemma_read_encoded_header(buf, 0, ARRAY, args.len());
    lemma_parse_encoded_args(buf, head.len() as int, args);
    assert(buf[0] == head[0]);
}

/// Writing what was read as an array gives back the bytes: where a buffer
/// holds a whole command in that form at its front, the command is within
/// the limits and its wire form is exactly the bytes that were consumed.
pub proof fn lemma_encode_parsed(buf: Seq<u8>)
    ensures
        parse_array(buf) matches Parsed::Complete { command, consumed } ==> {
            &&& sendable(command)
            &&& 0 < consumed <= buf.len()
            &&& buf.take(consumed) == encoded_command(command)
        },
{
    if let Parsed::Complete { command, consumed } = parse_array(buf) {
        lemma_header_encoded(buf, 0, ARRAY);
        let count = header_at(buf, 0, ARRAY)->value;
        let next = header_at(buf, 0, ARRAY)->next;
        lemma_parsed_args_encoded(buf, next, count);
        lemma_occurs_split(buf, 0, encoded_header(ARRAY, count), encoded_args(command));
        assert(buf.take(consumed) =~= buf.subrange(0, consumed));
    }
}

proof fn lemma_words_bounds(line: Seq<u8>)
    ensures
        words(line).len() <= line.len(),
        forall|i: int| 0 <= i < words(line).len() ==> 0 < (#[trigger] words(line)[i]).len() <= line.len(),
        line.len() > 0 && line.last() != SPACE ==> words(line).len() > 0,
    decreases line.len(),
{
    if line.len() > 0 {
        lemma_words_bounds(line.drop_last());
        let front = words(line.drop_last());
        if line.last() != SPACE && line.len() >= 2 && line[line.len() - 2] != SPACE {
            assert(line.drop_last().last() == line[line.len() - 2]);
        }
    }
}

/// What is read from a buffer is within the limits and depends on no more
/// than the bytes that are consumed, and writing it out gives a frame that
/// is read as the same command: from whichever form a command was read,
/// its wire form carries the same name and arguments.
pub proof fn lemma_parsed_round_trip(buf: Seq<u8>)
    ensures
        parse(buf) matches Parsed::Complete { command, consumed } ==> {
            &&& sendable(command)
            &&& 0 < consumed <= buf.len()
            &&& parse(buf.take(consumed)) == parse(buf)
            &&& parse(encoded_command(command)) == (Parsed::Complete {
                command,
                consumed: encoded_command(command).len() as int,
            })
        },
{
    if let Parsed::Complete { command, consumed } = parse(buf) {
        if buf[0] == ARRAY {
            lemma_encode_parsed(buf);
            lemma_parse_encoded(command, Seq::empty());
            assert(encoded_command(command) + Seq::<u8>::empty() =~= encoded_command(command));
        } else {
            lemma_line_end_props(buf, 0);
            let end = line_end(buf, 0)->Some_0;
            let line = buf.subrange(0, end);
            lemma_words_bounds(line);
            let front = buf.take(consumed);
            lemma_line_end_found(front, 0, end);
            assert(front.subrange(0, end) =~= line);
            assert(front[0] == buf[0]);
            lemma_parse_encoded(command, Seq::empty());
            assert(encoded_command(command) + Seq::<u8>::empty() =~= encoded_command(command));
        }
    }
}

/// What follows a whole frame in a buffer does not change how the frame is
/// read.
pub proof fn lemma_parse_extended(frame: Seq<u8>, command: Seq<Seq<u8>>, rest: Seq<u8>)
    requires
        parse(frame) == (Parsed::Complete { command, consumed: frame.len() as int }),
    ensures
        parse(frame + rest) == parse(frame),
        frame.len() > 0,
{
    let buf = frame + rest;
    lemma_parsed_round_trip(frame);
    assert(buf[0] == frame[0]);
    if frame[0] == ARRAY {
        lemma_encode_parsed(frame);
        assert(frame.take(frame.len() as int) =~= frame);
        lemma_parse_encoded(command, rest);
    } else {
        lemma_line_end_props(frame, 0);
        let end = line_end(frame, 0)->Some_0;
        assert forall|k: int| 0 <= k < end implies !(#[trigger] buf[k] == CR && buf[k + 1] == LF) by {
            assert(buf[k] == frame[k]);
            assert(buf[k + 1] == frame[k + 1]);
        }
        assert(buf[end] == frame[end]);
        assert(buf[end + 1] == frame[end + 1]);
        lemma_line_end_found(buf, 0, end);
        assert(buf.subrange(0, end) =~= frame.subrange(0, end));
    }
}

proof fn lemma_encoded_args_push(args: Seq<Seq<u8>>, last: Seq<u8>)
    ensures
        encoded_args(args.push(last)) == encoded_args(args) + encoded_bulk(last),
    decreases args.len(),
{
    let all = args.push(last);
    if args.len() == 0 {
        assert(all.drop_first() =~= Seq::<Seq<u8>>::empty());
        assert(all[0] == last);
        assert(encoded_args(all.drop_first()) =~= Seq::<u8>::empty());
        assert(encoded_args(all) =~= encoded_bulk(last) + Seq::<u8>::empty());
        assert(encoded_args(args) + encoded_bulk(last) =~= encoded_bulk(last));
        assert(encoded_bulk(last) + Seq::<u8>::empty() =~= encoded_bulk(last));
    } else {
        assert(all[0] == args[0]);
        assert(all.drop_first() =~= args.drop_first().push(last));
        lemma_encoded_args_push(args.drop_first(), last);
        assert(encoded_bulk(args[0]) + (encoded_args(args.drop_first()) + encoded_bulk(last))
            =~= encoded_bulk(args[0]) + encoded_args(args.drop_first()) + encoded_bulk(last));
    }
}

/// Appends the decimal numeral of `n`.
pub fn push_decimal(out: &mut Vec<u8>, n: u64)
    ensures
        final(out)@ == old(out)@ + decimal(n as nat),
    decreases n,
{
    if n >= 10 {
        push_decimal(out, n / 10);
    }
    out.push(ZERO + (n % 10) as u8);
    assert(out@ =~= old(out)@ + decimal(n as nat));
}

/// Appends a header line.
pub fn push_header(out: &mut Vec<u8>, marker: u8, n: u64)
    ensures
        final(out)@ == old(out)@ + encoded_header(marker, n as nat),
{
    out.push(marker);
    push_decimal(out, n);
    out.push(CR);
    out.push(LF);
    assert(out@ =~= old(out)@ + encoded_header(marker, n as nat));
}

/// Appends one argument in its wire form.
pub fn push_bulk(out: &mut Vec<u8>, arg: &[u8])
    ensures
        final(out)@ == old(out)@ + encoded_bulk(arg@),
{
    push_header(out, BULK, arg.len() as u64);
    out.extend_from_slice(arg);
    out.push(CR);
    out.push(LF);
    assert(out@ =~= old(out)@ + encoded_bulk(arg@));
}

/// The wire form of a command.
pub fn encode_command(command: &Command) -> (out: Vec<u8>)
    ensures
        out@ == encoded_command(command@),
{
    let mut out: Vec<u8> = Vec::new();
    push_header(&mut out, ARRAY, command.args.len() as u64);
    let ghost head = out@;
    let mut i: usize = 0;
    assert(command@.take(0) =~= Seq::<Seq<u8>>::empty());
    assert(out@ =~= head + encoded_args(command@.take(0)));
    while i < command.args.len()
        invariant
            i <= command.args.len(),
            head == encoded_header(ARRAY, command@.len()),
            out@ == head + encoded_args(command@.take(i as int)),
        decreases command.args.len() - i,
    {
        proof {
            lemma_encoded_args_push(command@.take(i as int), command@[i as int]);
            assert(command@.take(i + 1) =~= command@.take(i as int).push(command@[i as int]));
        }
        push_bulk(&mut out, command.args[i].as_slice());
        assert(out@ =~= head + encoded_args(command@.take(i + 1)));
        i += 1;
    }
    assert(command@.take(command.args.len() as int) =~= command@);
    out
}


/// Why a frame is refused.
#[derive(Clone, Copy, Debug, PartialEq, Eq, Structural)]
pub enum FrameError {
    /// The bytes are not the beginning of any command.
    Malformed,
    /// The frame is larger than the configured limit.
    FrameTooLarge,
}

impl FrameError {
    /// Both are protocol errors.
    pub open spec fn spec_kind(self) -> ErrorKind {
        ErrorKind::ProtocolError
    }

    /// The kind of failure that the client is told.
    #[verifier::when_used_as_spec(spec_kind)]
    pub fn kind(self) -> (k: ErrorKind)
        ensures
            k == self.spec_kind(),
    {
        ErrorKind::ProtocolError
    }
}

/// What is to be done with the front of a read buffer.
pub enum IntakeView {
    /// A whole command within the limit, which takes up the first
    /// `consumed` bytes.
    Accept { command: Seq<Seq<u8>>, consumed: int },
    /// More bytes are needed.
    Wait,
    /// The connection is to be closed.
    Refuse(FrameError),
}

/// What is to be done with `buf` where a frame may have at most `max`
/// bytes: a whole frame is accepted if it has at most `max` bytes, and a
/// frame that is not yet whole is waited for as long as what has arrived of
/// it is no more than that.
pub open spec fn intake_of(buf: Seq<u8>, max: nat) -> IntakeView {
    match parse(buf) {
        Parsed::Complete { command, consumed } => if consumed <= max {
            IntakeView::Accept { command, consumed }
        } else {
            IntakeView::Refuse(FrameError::FrameTooLarge)
        },
        Parsed::Incomplete => if buf.len() > max {
            IntakeView::Refuse(FrameError::FrameTooLarge)
        } else {
            IntakeView::Wait
        },
        Parsed::Malformed => IntakeView::Refuse(FrameError::Malformed),
    }
}

/// What is to be done with the front of a read buffer.
#[derive(Debug, PartialEq, Eq)]
pub enum Intake {
    /// A whole command within the limit, which takes up the first
    /// `consumed` bytes.
    Accept { command: Command, consumed: usize },
    /// More bytes are needed.
    Wait,
    /// The connection is to be closed.
    Refuse(FrameError),
}

impl View for Intake {
    type V = IntakeView;

    open spec fn view(&self) -> IntakeView {
        match self {
            Intake::Accept { command, consumed } => IntakeView::Accept {
                command: command@,
                consumed: *consumed as int,
            },
            Intake::Wait => IntakeView::Wait,
            Intake::Refuse(e) => IntakeView::Refuse(*e),
        }
    }
}

/// Reads the command at the front of `buf` under a limit of `max_frame`
/// bytes for one frame.
pub fn take_frame(buf: &[u8], max_frame: usize) -> (intake: Intake)
    ensures
        intake@ == intake_of(buf@, max_frame as nat),
        intake matches Intake::Accept { consumed, .. } ==> 0 < consumed <= buf.len() && consumed
            <= max_frame,
{
    match parse_frame(buf) {
        Frame::Complete { command, consumed } => {
            if consumed <= max_frame {
                Intake::Accept { command, consumed }
            } else {
                Intake::Refuse(FrameError::FrameTooLarge)
            }
        },
        Frame::Incomplete => {
            if buf.len() > max_frame {
                Intake::Refuse(FrameError::FrameTooLarge)
            } else {
                Intake::Wait
            }
        },
        Frame::Malformed => Intake::Refuse(FrameError::Malformed),
    }
}

/// A frame of exactly the largest size is accepted and one byte more is
/// refused: a command's wire form is accepted if and only if it has no
/// more bytes than the limit, and is refused as too large otherwise.
pub proof fn lemma_frame_size_boundary(args: Seq<Seq<u8>>, max: nat)
    requires
        sendable(args),
    ensures
        encoded_command(args).len() <= max ==> intake_of(encoded_command(args), max)
            == (IntakeView::Accept { command: args, consumed: encoded_command(args).len() as int }),
        encoded_command(args).len() > max ==> intake_of(encoded_command(args), max)
            == IntakeView::Refuse(FrameError::FrameTooLarge),
        intake_of(encoded_command(args), max) matches IntakeView::Refuse(e) ==> e.spec_kind()
            == ErrorKind::ProtocolError,
{
    lemma_parse_encoded(args, Seq::empty());
    assert(encoded_command(args) + Seq::<u8>::empty() =~= encoded_command(args));
}

/// What is sent back to a client.
#[derive(Debug, PartialEq, Eq)]
pub enum Reply {
    /// No value.
    Nil,
    /// Success without a value.
    Okay,
    /// A short status line.
    Status(Vec<u8>),
    /// A number.
    Integer(i64),
    /// A byte string.
    Data(Vec<u8>),
    /// Several byte strings.
    List(Vec<Vec<u8>>),
    /// An error with its message.
    Error(Vec<u8>),
}

/// A reply as a value.
pub enum ReplyView {
    Nil,
    Okay,
    Status(Seq<u8>),
    Integer(int),
    Data(Seq<u8>),
    List(Seq<Seq<u8>>),
    Error(Seq<u8>),
}

impl View for Reply {
    type V = ReplyView;

    open spec fn view(&self) -> ReplyView {
        match self {
            Reply::Nil => ReplyView::Nil,
            Reply::Okay => ReplyView::Okay,
            Reply::Status(s) => ReplyView::Status(s@),
            Reply::Integer(i) => ReplyView::Integer(*i as int),
            Reply::Data(d) => ReplyView::Data(d@),
            Reply::List(items) => ReplyView::List(Seq::new(items@.len(), |i: int| items@[i]@)),
            Reply::Error(m) => ReplyView::Error(m@),
        }
    }
}

/// The decimal numeral of `i`, with a minus sign in front if it is
/// negative.
pub open spec fn signed_decimal(i: int) -> Seq<u8> {
    if i < 0 {
        seq![45u8] + decimal((-i) as nat)
    } else {
        decimal(i as nat)
    }
}

/// A reply on the wire.
pub open spec fn encoded_reply(reply: ReplyView) -> Seq<u8> {
    match reply {
        ReplyView::Nil => seq![BULK, 45u8, 49u8] + crlf(),
        ReplyView::Okay => seq![43u8, 79u8, 75u8] + crlf(),
        ReplyView::Status(s) => seq![43u8] + s + crlf(),
        ReplyView::Integer(i) => seq![58u8] + signed_decimal(i) + crlf(),
        ReplyView::Data(d) => encoded_bulk(d),
        ReplyView::List(items) => encoded_header(ARRAY, items.len()) + encoded_args(items),
        ReplyView::Error(m) => seq![45u8, 69u8, 82u8, 82u8, 32u8] + m + crlf(),
    }
}

/// The wire form of a reply.
pub fn encode_reply(reply: &Reply) -> (out: Vec<u8>)
    ensures
        out@ == encoded_reply(reply@),
{
    let mut out: Vec<u8> = Vec::new();
    match reply {
        Reply::Nil => {
            out.push(BULK);
            out.push(45);
            out.push(49);
            out.push(CR);
            out.push(LF);
        },
        Reply::Okay => {
            out.push(43);
            out.push(79);
            out.push(75);
            out.push(CR);
            out.push(LF);
        },
        Reply::Status(s) => {
            out.push(43);
            out.extend_from_slice(s.as_slice());
            out.push(CR);
            out.push(LF);
        },
        Reply::Integer(i) => {
            out.push(58);
            if *i < 0 {
                out.push(45);
                let magnitude: u64 = (-(*i + 1)) as u64 + 1;
                push_decimal(&mut out, magnitude);
            } else {
                push_decimal(&mut out, *i as u64);
            }
            out.push(CR);
            out.push(LF);
        },
        Reply::Data(d) => {
            push_bulk(&mut out, d.as_slice());
        },
        Reply::List(items) => {
            push_header(&mut out, ARRAY, items.len() as u64);
            let ghost head = out@;
            let ghost all = Seq::new(items@.len(), |i: int| items@[i]@);
            let mut i: usize = 0;
            assert(all.take(0) =~= Seq::<Seq<u8>>::empty());
            assert(out@ =~= head + encoded_args(all.take(0)));
            while i < items.len()
                invariant
                    i <= items.len(),
                    all == Seq::new(items@.len(), |i: int| items@[i]@),
                    out@ == head + encoded_args(all.take(i as int)),
                decreases items.len() - i,
            {
                proof {
                    lemma_encoded_args_push(all.take(i as int), all[i as int]);
                    assert(all.take(i + 1) =~= all.take(i as int).push(all[i as int]));
                }
                push_bulk(&mut out, items[i].as_slice());
                assert(out@ =~= head + encoded_args(all.take(i + 1)));
                i += 1;
            }
            assert(all.take(items.len() as int) =~= all);
        },
        Reply::Error(m) => {
            out.push(45);
            out.push(69);
            out.push(82);
            out.push(82);
            out.push(32);
            out.extend_from_slice(m.as_slice());
            out.push(CR);
            out.push(LF);
        },
    }
    assert(out@ =~= encoded_reply(reply@));
    out
}


} // verus!
