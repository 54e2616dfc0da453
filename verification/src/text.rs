//! Message text built piece by piece, with the exact characters stated.

use vstd::prelude::*;
use vstd::string::StringExecFns;

verus! {

/// The decimal digit `d` as text.
pub open spec fn digit(d: nat) -> Seq<char> {
    if d == 0 {
        "0"@
    } else if d == 1 {
        "1"@
    } else if d == 2 {
        "2"@
    } else if d == 3 {
        "3"@
    } else if d == 4 {
        "4"@
    } else if d == 5 {
        "5"@
    } else if d == 6 {
        "6"@
    } else if d == 7 {
        "7"@
    } else if d == 8 {
        "8"@
    } else {
        "9"@
    }
}

/// The decimal notation of `n`, without leading zeros.
pub open spec fn decimal(n: nat) -> Seq<char>
    decreases n,
{
    if n < 10 {
        digit(n)
    } else {
        decimal(n / 10) + digit(n % 10)
    }
}

fn digit_str(d: u64) -> (s: &'static str)
    requires
        d < 10,
    ensures
        s@ == digit(d as nat),
{
    if d == 0 {
        "0"
    } else if d == 1 {
        "1"
    } else if d == 2 {
        "2"
    } else if d == 3 {
        "3"
    } else if d == 4 {
        "4"
    } else if d == 5 {
        "5"
    } else if d == 6 {
        "6"
    } else if d == 7 {
        "7"
    } else if d == 8 {
        "8"
    } else {
        "9"
    }
}

fn append_decimal(s: &mut String, n: u64)
    ensures
        final(s)@ == old(s)@ + decimal(n as nat),
    decreases n,
{
    if n < 10 {
        s.append(digit_str(n));
    } else {
        append_decimal(s, n / 10);
        s.append(digit_str(n % 10));
        assert(old(s)@ + decimal((n / 10) as nat) + digit((n % 10) as nat) =~= old(s)@ + (
        decimal((n / 10) as nat) + digit((n % 10) as nat)));
    }
}

/// `items` in decimal, separated by commas.
pub open spec fn joined(items: Seq<usize>) -> Seq<char>
    decreases items.len(),
{
    if items.len() == 0 {
        Seq::empty()
    } else if items.len() == 1 {
        decimal(items[0] as nat)
    } else {
        joined(items.drop_last()) + ", "@ + decimal(items.last() as nat)
    }
}

/// `items` in decimal, separated by commas.
pub open spec fn joined_ids(items: Seq<u64>) -> Seq<char>
    decreases items.len(),
{
    if items.len() == 0 {
        Seq::empty()
    } else if items.len() == 1 {
        decimal(items[0] as nat)
    } else {
        joined_ids(items.drop_last()) + ", "@ + decimal(items.last() as nat)
    }
}

/// A number that may be missing.
pub open spec fn maybe(n: Option<u64>) -> Seq<char> {
    match n {
        None => "None"@,
        Some(n) => "Some("@ + decimal(n as nat) + ")"@,
    }
}

/// What std's `Debug` formatting makes of a string.
pub uninterp spec fn quoted_of(s: Seq<char>) -> Seq<char>;

/// `<str as std::fmt::Debug>::fmt`, through `format!("{s:?}")`: the string in double quotes,
/// with special characters escaped. The contract claims that the text depends on the string
/// alone, and leaves open how a character is escaped.
#[verifier::external_body]
pub(crate) fn quoted(s: &str) -> (r: String)
    ensures
        r@ == quoted_of(s@),
{
    format!("{s:?}")
}

/// A message under construction; its view is the characters written so far.
pub struct Text {
    s: String,
}

impl View for Text {
    type V = Seq<char>;

    closed spec fn view(&self) -> Seq<char> {
        self.s@
    }
}

impl Text {
    /// Starts a message with `piece`.
    pub fn of(piece: &str) -> (t: Text)
        ensures
            t@ == piece@,
    {
        Text { s: piece.to_owned() }
    }

    /// Appends `piece`.
    pub fn lit(self, piece: &str) -> (t: Text)
        ensures
            t@ == self@ + piece@,
    {
        let mut s = self.s;
        s.append(piece);
        Text { s }
    }

    /// Appends `n` in decimal.
    pub fn num(self, n: u64) -> (t: Text)
        ensures
            t@ == self@ + decimal(n as nat),
    {
        let mut s = self.s;
        append_decimal(&mut s, n);
        Text { s }
    }

    /// Appends `n` in decimal.
    pub fn size(self, n: usize) -> (t: Text)
        ensures
            t@ == self@ + decimal(n as nat),
    {
        self.num(n as u64)
    }

    /// Appends `items` in decimal, separated by commas.
    pub fn items(self, items: &Vec<usize>) -> (t: Text)
        ensures
            t@ == self@ + joined(items@),
    {
        let mut t = self;
        let mut i: usize = 0;
        assert(self@ + joined(items@.take(0)) =~= self@);
        while i < items.len()
            invariant
                i <= items@.len(),
                t@ == self@ + joined(items@.take(i as int)),
            decreases items@.len() - i,
        {
            proof {
                assert(items@.take(i + 1).drop_last() =~= items@.take(i as int));
                let before = joined(items@.take(i as int));
                let number = decimal(items@[i as int] as nat);
                assert(self@ + before + ", "@ + number =~= self@ + (before + ", "@ + number));
                if i == 0 {
                    assert(self@ + joined(items@.take(0)) =~= self@);
                }
            }
            if i > 0 {
                t = t.lit(", ");
            }
            t = t.size(items[i]);
            i += 1;
        }
        assert(items@.take(i as int) =~= items@);
        t
    }

    /// Appends `items` in decimal, separated by commas.
    pub fn ids(self, items: &Vec<u64>) -> (t: Text)
        ensures
            t@ == self@ + joined_ids(items@),
    {
        let mut t = self;
        let mut i: usize = 0;
        assert(self@ + joined_ids(items@.take(0)) =~= self@);
        while i < items.len()
            invariant
                i <= items@.len(),
                t@ == self@ + joined_ids(items@.take(i as int)),
            decreases items@.len() - i,
        {
            proof {
                assert(items@.take(i + 1).drop_last() =~= items@.take(i as int));
                let before = joined_ids(items@.take(i as int));
                let number = decimal(items@[i as int] as nat);
                assert(self@ + before + ", "@ + number =~= self@ + (before + ", "@ + number));
                if i == 0 {
                    assert(self@ + joined_ids(items@.take(0)) =~= self@);
                }
            }
            if i > 0 {
                t = t.lit(", ");
            }
            t = t.num(items[i]);
            i += 1;
        }
        assert(items@.take(i as int) =~= items@);
        t
    }

    /// Appends a number that may be missing.
    pub fn maybe(self, n: Option<u64>) -> (t: Text)
        ensures
            t@ == self@ + maybe(n),
    {
        match n {
            None => self.lit("None"),
            Some(n) => {
                let number = Text::of("Some(").num(n).lit(")");
                self.lit(&number.done())
            },
        }
    }

    /// The finished message.
    pub fn done(self) -> (s: String)
        ensures
            s@ == self@,
    {
        self.s
    }
}

} // verus!
