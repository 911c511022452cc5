//! How the command-line client shows a server's reply: one value to a
//! line, the items of an array numbered and set in under the array's own
//! number.

use vstd::prelude::*;
use vstd::string::StringExecFns;
use crate::text::{
    decimal_text, from_utf8_lossy, lossy_text, push_decimal_text, push_signed_text, signed_text,
};

verus! {

/// A reply as the client library hands it over.
#[derive(Debug, PartialEq, Eq)]
pub enum Value {
    /// No value.
    Nil,
    /// A number.
    Int(i64),
    /// A byte string.
    Data(Vec<u8>),
    /// An array of replies.
    Bulk(Vec<Value>),
    /// A status line.
    Status(String),
    /// The status line `OK`.
    Okay,
}

/// What has been printed, and whether the next item of an array has to be
/// set in: it has, unless it follows its array's number on the same line.
pub struct PageView {
    pub text: Seq<char>,
    pub indent_needed: bool,
}

/// The text that is being printed.
pub struct Page {
    text: String,
    indent_needed: bool,
}

impl View for Page {
    type V = PageView;

    closed spec fn view(&self) -> PageView {
        PageView { text: self.text@, indent_needed: self.indent_needed }
    }
}

/// `n` blanks.
pub open spec fn blanks(n: nat) -> Seq<char> {
    Seq::new(n, |i: int| ' ')
}

/// A page after the indentation of an item was printed: `indent` blanks
/// if the page is at the beginning of a line, nothing if it is not.
pub open spec fn indented(p: PageView, indent: nat) -> PageView {
    if p.indent_needed {
        PageView { text: p.text + blanks(indent), indent_needed: false }
    } else {
        p
    }
}

/// A number set to the right in two columns.
pub open spec fn two_wide(n: nat) -> Seq<char> {
    if n < 10 {
        seq![' '] + decimal_text(n)
    } else {
        decimal_text(n)
    }
}

/// A page after the number of an item was printed, where it has one.
pub open spec fn numbered(p: PageView, seq: Option<usize>) -> PageView {
    match seq {
        Some(n) => PageView { text: p.text + two_wide(n as nat) + ") "@, ..p },
        None => p,
    }
}

/// A page after a value was printed and its line ended.
pub open spec fn with_line(p: PageView, val: Seq<char>) -> PageView {
    PageView { text: p.text + val + "\n"@, indent_needed: true }
}

/// Text between double quotes.
pub open spec fn quoted(text: Seq<char>) -> Seq<char> {
    "\""@ + text + "\""@
}

/// The indentation of the items of an array that is itself set in by
/// `indent`: four more, as far as numbers go.
pub open spec fn deeper(indent: usize) -> usize {
    if indent <= usize::MAX - 4 {
        (indent + 4) as usize
    } else {
        usize::MAX
    }
}

/// A page after the reply `v` was printed as an item with the number `seq`
/// of an array whose items are set in by `indent`.
pub open spec fn shown(p: PageView, v: Value, indent: usize, seq: Option<usize>) -> PageView
    decreases v, 0nat,
{
    match v {
        Value::Nil => with_line(numbered(p, seq), "(nil)"@),
        Value::Int(i) => with_line(numbered(p, seq), "(integer) "@ + signed_text(i as int)),
        Value::Data(bytes) => with_line(numbered(p, seq), quoted(lossy_text(bytes@))),
        Value::Bulk(items) => if items@.len() == 0 {
            with_line(numbered(indented(p, indent as nat), seq), "(empty array)"@)
        } else {
            shown_items(numbered(p, seq), items@, indent, items@.len())
        },
        Value::Okay => with_line(numbered(p, seq), "OK"@),
        Value::Status(s) => with_line(numbered(p, seq), quoted(s@)),
    }
}

/// A page after the first `count` of `items` were printed, each set in by
/// `indent` and numbered from one.
pub open spec fn shown_items(p: PageView, items: Seq<Value>, indent: usize, count: nat) -> PageView
    decreases items, count,
{
    if count == 0 || count > items.len() {
        p
    } else {
        shown(
            indented(shown_items(p, items, indent, (count - 1) as nat), indent as nat),
            items[count - 1],
            deeper(indent),
            Some(count as usize),
        )
    }
}

impl Page {
    /// An empty page.
    pub fn new() -> (page: Page)
        ensures
            page@ == (PageView { text: Seq::empty(), indent_needed: true }),
    {
        Page { text: String::new(), indent_needed: true }
    }

    /// Begins the next reply at the beginning of a line.
    pub fn begin_reply(&mut self)
        ensures
            final(self)@ == (PageView { indent_needed: true, ..old(self)@ }),
    {
        self.indent_needed = true;
    }

    /// What has been printed.
    pub fn text(&self) -> (text: &str)
        ensures
            text@ == self@.text,
    {
        self.text.as_str()
    }

    /// Hands over what has been printed and starts afresh with nothing.
    pub fn take_text(&mut self) -> (text: String)
        ensures
            text@ == old(self)@.text,
            final(self)@ == (PageView { text: Seq::empty(), ..old(self)@ }),
    {
        let mut text = String::new();
        core::mem::swap(&mut self.text, &mut text);
        text
    }
}

/// Prints the indentation of an item, unless the item follows its array's
/// number on the same line.
pub fn print_indent(page: &mut Page, indent: usize)
    ensures
        final(page)@ == indented(old(page)@, indent as nat),
{
    if !page.indent_needed {
        return ;
    }
    let mut i: usize = 0;
    assert(page.text@ =~= old(page)@.text + blanks(0));
    while i < indent
        invariant
            i <= indent,
            page.indent_needed == old(page).indent_needed,
            page.text@ == old(page)@.text + blanks(i as nat),
        decreases indent - i,
    {
        proof {
            reveal_strlit(" ");
        }
        page.text.append(" ");
        assert(page.text@ =~= old(page)@.text + blanks((i + 1) as nat));
        i += 1;
    }
    page.indent_needed = false;
}

/// Prints the number of an item, where it has one.
pub fn print_sequence(page: &mut Page, seq: Option<usize>)
    ensures
        final(page)@ == numbered(old(page)@, seq),
{
    if let Some(n) = seq {
        proof {
            reveal_strlit(" ");
        }
        let mut number = String::new();
        if n < 10 {
            number.append(" ");
        }
        push_decimal_text(&mut number, n as u64);
        assert(number@ =~= two_wide(n as nat));
        page.text.append(number.as_str());
        page.text.append(") ");
    }
}

/// Prints a value and ends the line.
pub fn println_value(page: &mut Page, val: &str)
    ensures
        final(page)@ == with_line(old(page)@, val@),
{
    page.text.append(val);
    page.text.append("\n");
    page.indent_needed = true;
}

/// Prints text between double quotes and ends the line.
pub fn println_quoted(page: &mut Page, text: &str)
    ensures
        final(page)@ == with_line(old(page)@, quoted(text@)),
{
    let mut line = String::from_str("\"");
    line.append(text);
    line.append("\"");
    println_value(page, line.as_str());
}

/// Prints a reply: a value on a line of its own, an array as its items,
/// numbered from one and set in by `indent`, with the first item on the
/// line of the array's own number. `seq` is the number of the reply itself
/// where it is an item of an array.
pub fn print_response_pretty(page: &mut Page, value: &Value, indent: usize, seq: Option<usize>)
    ensures
        final(page)@ == shown(old(page)@, *value, indent, seq),
    decreases value,
{
    match value {
        Value::Nil => {
            print_sequence(page, seq);
            println_value(page, "(nil)");
        },
        Value::Int(val) => {
            print_sequence(page, seq);
            let mut line = String::from_str("(integer) ");
            push_signed_text(&mut line, *val);
            println_value(page, line.as_str());
        },
        Value::Data(val) => {
            let text = from_utf8_lossy(val.as_slice());
            print_sequence(page, seq);
            println_quoted(page, text.as_str());
        },
        Value::Bulk(values) => {
            if values.len() == 0 {
                print_indent(page, indent);
                print_sequence(page, seq);
                println_value(page, "(empty array)");
            } else {
                print_sequence(page, seq);
                let ghost first = page@;
                let inner: usize = if indent <= usize::MAX - 4 {
                    indent + 4
                } else {
                    usize::MAX
                };
                let mut i: usize = 0;
                while i < values.len()
                    invariant
                        i <= values.len(),
                        *value == Value::Bulk(*values),
                        inner == deeper(indent),
                        page@ == shown_items(first, values@, indent, i as nat),
                    decreases values.len() - i,
                {
                    proof {
                        assert(value->Bulk_0 == *values);
                        assert(decreases_to!(*value => value->Bulk_0));
                    }
                    print_indent(page, indent);
                    print_response_pretty(page, &values[i], inner, Some(i + 1));
                    i += 1;
                }
            }
        },
        Value::Okay => {
            print_sequence(page, seq);
            println_value(page, "OK");
        },
        Value::Status(s) => {
            print_sequence(page, seq);
            println_quoted(page, s.as_str());
        },
    }
}

/// The text that shows a reply which is no item of an array.
pub fn render(value: &Value) -> (text: String)
    ensures
        text@ == shown(
            PageView { text: Seq::empty(), indent_needed: true },
            *value,
            0,
            None,
        ).text,
{
    let mut page = Page::new();
    print_response_pretty(&mut page, value, 0, None);
    page.take_text()
}

} // verus!
