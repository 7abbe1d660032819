//! Colours, colour keys, and the colour tables.
//!
//! A [`ColourKey`] is the opaque index that the classifier hands to an
//! equivalence class; reifying it picks a concrete colour from a table,
//! cycling when there are more keys than colours. Two colour kinds are
//! offered: the eight standard terminal foreground colours, and 24-bit
//! colours given by their three channels.

use vstd::pervasive::unreached;
use vstd::prelude::*;
use vstd::string::StrSliceExecFns;
use vstd::string::StringExecFns;

verus! {

/// One terminal escape sequence: it starts with the escape character,
/// ends with 'm', and holds no other 'm'. Stripping output back to
/// plain text consumes exactly such runs.
pub open spec fn is_marker(s: Seq<char>) -> bool {
    &&& s.len() >= 2
    &&& s[0] == '\x1B'
    &&& s[s.len() - 1] == 'm'
    &&& forall|k: int| 0 < k < s.len() - 1 ==> s[k] != 'm'
}

/// The character for one decimal digit.
pub open spec fn digit_char(d: int) -> char {
    if d == 0 {
        '0'
    } else if d == 1 {
        '1'
    } else if d == 2 {
        '2'
    } else if d == 3 {
        '3'
    } else if d == 4 {
        '4'
    } else if d == 5 {
        '5'
    } else if d == 6 {
        '6'
    } else if d == 7 {
        '7'
    } else if d == 8 {
        '8'
    } else {
        '9'
    }
}

/// The decimal digits of a byte value, most significant first, without
/// leading zeroes.
pub open spec fn decimal_of(n: int) -> Seq<char> {
    if n < 10 {
        seq![digit_char(n)]
    } else if n < 100 {
        seq![digit_char(n / 10), digit_char(n % 10)]
    } else {
        seq![digit_char(n / 100), digit_char((n / 10) % 10), digit_char(n % 10)]
    }
}

/// Relies on alloc's String::push: appends the given character to the
/// end of the string.
#[verifier::external_body]
pub(crate) fn push_char(s: &mut String, c: char)
    ensures
        final(s)@ == old(s)@.push(c),
{
    s.push(c);
}

/// The character for one decimal digit.
fn digit(d: u8) -> (c: char)
    requires
        d < 10,
    ensures
        c == digit_char(d as int),
{
    match d {
        0 => '0',
        1 => '1',
        2 => '2',
        3 => '3',
        4 => '4',
        5 => '5',
        6 => '6',
        7 => '7',
        8 => '8',
        _ => '9',
    }
}

/// Writes a byte value in decimal.
fn decimal_str(n: u8) -> (r: String)
    ensures
        r@ == decimal_of(n as int),
{
    let mut r = String::new();
    if n >= 100 {
        push_char(&mut r, digit(n / 100));
    }
    if n >= 10 {
        push_char(&mut r, digit((n / 10) % 10));
    }
    push_char(&mut r, digit(n % 10));
    proof {
        assert(r@ =~= decimal_of(n as int));
    }
    r
}

/// No decimal digit is an escape character or an 'm', so a digit run
/// can stand inside a marker.
proof fn lemma_decimal_marker_safe(n: int)
    ensures
        forall|k: int|
            0 <= k < decimal_of(n).len() ==> decimal_of(n)[k] != 'm' && decimal_of(n)[k]
                != '\x1B',
{
}

/// A renderable colour: anything that can put its terminal escape
/// sequence in front of a word.
pub trait Colour: Copy {
    /// The characters of the escape sequence that starts this colour.
    spec fn ansi(&self) -> Seq<char>;

    /// Every colour's escape sequence is one well-formed marker.
    proof fn ansi_is_marker(&self)
        ensures
            is_marker(self.ansi()),
    ;

    /// Emits the escape sequence that starts this colour.
    fn ansify(&self) -> (r: String)
        ensures
            r@ == self.ansi(),
    ;
}

/// A 24-bit colour, by its three channels.
#[derive(Copy, Clone)]
pub struct RGB {
    pub r: u8,
    pub g: u8,
    pub b: u8,
}

impl Colour for RGB {
    open spec fn ansi(&self) -> Seq<char> {
        seq!['\x1B', '[', '3', '8', ';', '2', ';'] + decimal_of(self.r as int) + seq![';']
            + decimal_of(self.g as int) + seq![';'] + decimal_of(self.b as int) + seq!['m']
    }

    proof fn ansi_is_marker(&self) {
        lemma_decimal_marker_safe(self.r as int);
        lemma_decimal_marker_safe(self.g as int);
        lemma_decimal_marker_safe(self.b as int);
    }

    fn ansify(&self) -> (res: String) {
        let mut out = String::new();
        push_char(&mut out, '\x1B');
        push_char(&mut out, '[');
        push_char(&mut out, '3');
        push_char(&mut out, '8');
        push_char(&mut out, ';');
        push_char(&mut out, '2');
        push_char(&mut out, ';');
        let dr = decimal_str(self.r);
        out.append(dr.as_str());
        push_char(&mut out, ';');
        let dg = decimal_str(self.g);
        out.append(dg.as_str());
        push_char(&mut out, ';');
        let db = decimal_str(self.b);
        out.append(db.as_str());
        push_char(&mut out, 'm');
        proof {
            assert(out@ =~= self.ansi());
        }
        out
    }
}

/// One of the eight standard terminal foreground colours, by its code.
#[derive(Copy, Clone)]
pub struct DiscordColour {
    pub value: u8,
}

impl Colour for DiscordColour {
    open spec fn ansi(&self) -> Seq<char> {
        seq!['\x1B', '['] + decimal_of(self.value as int) + seq!['m']
    }

    proof fn ansi_is_marker(&self) {
        lemma_decimal_marker_safe(self.value as int);
    }

    fn ansify(&self) -> (res: String) {
        let mut out = String::new();
        push_char(&mut out, '\x1B');
        push_char(&mut out, '[');
        let d = decimal_str(self.value);
        out.append(d.as_str());
        push_char(&mut out, 'm');
        proof {
            assert(out@ =~= self.ansi());
        }
        out
    }
}

/// Hands out the eight standard foreground colours in a cycle, at most
/// `total` of them.
pub struct DiscordColourIterator {
    pub index: usize,
    pub total: usize,
}

impl DiscordColourIterator {
    pub fn new(total: usize) -> (r: Self)
        ensures
            r.index == 0,
            r.total == total,
    {
        Self { index: 0, total }
    }

    /// The next colour of the cycle, or nothing once `total` colours
    /// have been handed out.
    pub fn next(&mut self) -> (r: Option<DiscordColour>)
        ensures
            old(self).index >= old(self).total ==> r is None && *final (self) == *old(self),
            old(self).index < old(self).total ==> {
                &&& final (self).index == old(self).index + 1
                &&& final (self).total == old(self).total
                &&& r == Some(
                    DiscordColour { value: (((old(self).index + 1) % 8) + 30) as u8 },
                )
            },
    {
        if self.index >= self.total {
            return None;
        }
        self.index += 1;
        let remainder = self.index % 8;
        Some(DiscordColour { value: remainder as u8 + 30 })
    }
}

/// The first `total` colours of the eight-colour cycle, precomputed as
/// a table for [`ColourKey::reify`].
pub fn discord_table(total: usize) -> (r: Vec<DiscordColour>)
    ensures
        r@.len() == total,
        forall|i: int| 0 <= i < total ==> r@[i].value == (((i + 1) % 8) + 30) as u8,
{
    let mut it = DiscordColourIterator::new(total);
    let mut r: Vec<DiscordColour> = Vec::new();
    while it.index < it.total
        invariant
            it.total == total,
            it.index == r@.len(),
            r@.len() <= total,
            forall|i: int| 0 <= i < r@.len() ==> r@[i].value == (((i + 1) % 8) + 30) as u8,
        decreases total - it.index,
    {
        match it.next() {
            Some(c) => r.push(c),
            None => unreached(),
        }
    }
    r
}

/// Hands out the indices of the perceptually-spread palette, at most
/// `total` of them. Turning an index into a colour steps the hue by
/// the golden angle and converts from hue-saturation-lightness, which
/// takes floating point; that conversion lives with the caller, and is
/// a pure function of the index handed out here.
pub struct RGBIterator {
    pub index: usize,
    pub total: usize,
}

impl RGBIterator {
    pub fn new(total: usize) -> (r: Self)
        ensures
            r.index == 0,
            r.total == total,
    {
        Self { index: 0, total }
    }

    /// The next colour index, or nothing once `total` have been handed
    /// out.
    pub fn next_index(&mut self) -> (r: Option<usize>)
        ensures
            old(self).index >= old(self).total ==> r is None && *final (self) == *old(self),
            old(self).index < old(self).total ==> {
                &&& final (self).index == old(self).index + 1
                &&& final (self).total == old(self).total
                &&& r == Some(old(self).index)
            },
    {
        if self.index >= self.total {
            return None;
        }
        let i = self.index;
        self.index += 1;
        Some(i)
    }
}

/// The opaque, totally ordered index assigned to a coloured
/// equivalence class: key 0 for the first class resolved, key 1 for
/// the next, and so on.
#[derive(PartialEq, Eq, Copy, Clone, Hash, Debug, Default, Structural)]
pub struct ColourKey {
    pub idx: usize,
}

impl ColourKey {
    /// The following key.
    pub fn next(&self) -> (r: Self)
        requires
            self.idx < usize::MAX,
        ensures
            r.idx == self.idx + 1,
    {
        Self { idx: self.idx + 1 }
    }

    /// The colour this key picks from `table`, cycling through the
    /// table when there are more keys than colours.
    pub fn reify<T: Colour>(&self, table: &Vec<T>) -> (r: T)
        requires
            table@.len() > 0,
        ensures
            r == table@[self.idx as int % table@.len() as int],
    {
        table[self.idx % table.len()]
    }
}

} // verus!
