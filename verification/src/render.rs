//! Rendering classified words as one output line, and the proof that
//! the line can be read back.
//!
//! Every word is emitted as: the escape sequence of its class's colour
//! (for a coloured word), the word itself, the reset marker, one
//! space. Stripping the markers from the line and splitting it on
//! spaces gives back the classified words in their original order.

use crate::classify::ColouredObject;
use crate::colours::{is_marker, push_char, Colour};
use vstd::prelude::*;
use vstd::string::StrSliceExecFns;
use vstd::string::StringExecFns;

verus! {

/// The reset marker that ends every rendered word.
pub open spec fn reset_seq() -> Seq<char> {
    seq!['\x1B', '[', '0', 'm']
}

/// Emits the reset marker.
pub fn reset() -> (r: String)
    ensures
        r@ == reset_seq(),
{
    let mut r = String::new();
    push_char(&mut r, '\x1B');
    push_char(&mut r, '[');
    push_char(&mut r, '0');
    push_char(&mut r, 'm');
    proof {
        assert(r@ =~= reset_seq());
    }
    r
}

/// The reset marker is itself one well-formed marker.
pub proof fn lemma_reset_is_marker()
    ensures
        is_marker(reset_seq()),
{
    assert(reset_seq()[1] != 'm' && reset_seq()[2] != 'm');
}

/// What one classified word contributes to the output line, given the
/// escape sequences of the colour table: its colour's marker if it is
/// coloured, the word, the reset marker, one space.
pub open spec fn chunk_of(o: ColouredObject, ansis: Seq<Seq<char>>) -> Seq<char> {
    (match o.colour {
        Some(k) => ansis[k.idx as int % ansis.len() as int],
        None => Seq::<char>::empty(),
    }) + o.value@ + reset_seq() + seq![' ']
}

/// The whole output line for a classified word list.
pub open spec fn spec_render(objs: Seq<ColouredObject>, ansis: Seq<Seq<char>>) -> Seq<char>
    decreases objs.len(),
{
    if objs.len() == 0 {
        Seq::empty()
    } else {
        chunk_of(objs[0], ansis) + spec_render(objs.drop_first(), ansis)
    }
}

/// Rendering one more word appends its chunk.
proof fn lemma_render_push(a: Seq<ColouredObject>, x: ColouredObject, ansis: Seq<Seq<char>>)
    ensures
        spec_render(a.push(x), ansis) == spec_render(a, ansis) + chunk_of(x, ansis),
    decreases a.len(),
{
    if a.len() == 0 {
        assert(a.push(x).drop_first() =~= a);
        assert(a.push(x)[0] == x);
        assert(chunk_of(x, ansis) + spec_render(a, ansis) =~= chunk_of(x, ansis));
        assert(spec_render(a, ansis) + chunk_of(x, ansis) =~= chunk_of(x, ansis));
    } else {
        lemma_render_push(a.drop_first(), x, ansis);
        assert(a.push(x).drop_first() =~= a.drop_first().push(x));
        assert(a.push(x)[0] == a[0]);
        assert((chunk_of(a[0], ansis) + spec_render(a.drop_first(), ansis)) + chunk_of(x, ansis)
            =~= chunk_of(a[0], ansis) + (spec_render(a.drop_first(), ansis) + chunk_of(x, ansis)));
    }
}

impl ColouredObject {
    /// The word with its colour's escape sequence in front, or the bare
    /// word when its class is uncoloured.
    pub fn ansify<U: Colour>(&self, table: &Vec<U>) -> (r: String)
        requires
            self.colour is Some ==> table@.len() > 0,
        ensures
            r@ == match self.colour {
                Some(k) => table@[k.idx as int % table@.len() as int].ansi() + self.value@,
                None => self.value@,
            },
    {
        match self.colour {
            Some(c) => {
                let col = c.reify(table);
                let mut r = col.ansify();
                r.append(self.value.as_str());
                r
            },
            None => self.value.clone(),
        }
    }
}

/// One line of output: every word rendered in order, each followed by
/// the reset marker and one space.
pub fn render_line<U: Colour>(objs: &Vec<ColouredObject>, table: &Vec<U>) -> (r: String)
    requires
        table@.len() > 0,
    ensures
        r@ == spec_render(objs@, table@.map_values(|c: U| c.ansi())),
{
    let ghost ansis = table@.map_values(|c: U| c.ansi());
    let mut r = String::new();
    let mut i: usize = 0;
    while i < objs.len()
        invariant
            table@.len() > 0,
            ansis == table@.map_values(|c: U| c.ansi()),
            i <= objs@.len(),
            r@ == spec_render(objs@.take(i as int), ansis),
        decreases objs@.len() - i,
    {
        let o = &objs[i];
        let piece = o.ansify(table);
        r.append(piece.as_str());
        let rst = reset();
        r.append(rst.as_str());
        push_char(&mut r, ' ');
        proof {
            assert(objs@.take(i as int + 1) =~= objs@.take(i as int).push(objs@[i as int]));
            lemma_render_push(objs@.take(i as int), objs@[i as int], ansis);
            assert(r@ =~= spec_render(objs@.take(i as int), ansis) + chunk_of(
                objs@[i as int],
                ansis,
            ));
        }
        i += 1;
    }
    proof {
        assert(objs@.take(objs@.len() as int) =~= objs@);
    }
    r
}

/// `strip_from(s, false)` is `s` with every escape marker removed:
/// from an escape character everything up to and including the next
/// 'm' is dropped, and everything else is kept.
pub open spec fn strip_from(s: Seq<char>, in_escape: bool) -> Seq<char>
    decreases s.len(),
{
    if s.len() == 0 {
        Seq::empty()
    } else if in_escape {
        if s[0] == 'm' {
            strip_from(s.drop_first(), false)
        } else {
            strip_from(s.drop_first(), true)
        }
    } else if s[0] == '\x1B' {
        strip_from(s.drop_first(), true)
    } else {
        seq![s[0]] + strip_from(s.drop_first(), false)
    }
}

/// `s` with every escape marker removed.
pub open spec fn strip_markers(s: Seq<char>) -> Seq<char> {
    strip_from(s, false)
}

/// The segments of `s` between single spaces, the running segment
/// being `cur`.
pub open spec fn split_acc(s: Seq<char>, cur: Seq<char>) -> Seq<Seq<char>>
    decreases s.len(),
{
    if s.len() == 0 {
        seq![cur]
    } else if s[0] == ' ' {
        seq![cur] + split_acc(s.drop_first(), Seq::empty())
    } else {
        split_acc(s.drop_first(), cur.push(s[0]))
    }
}

/// The segments of `s` between single spaces; a trailing space yields
/// a final empty segment, exactly as splitting on ' ' does.
pub open spec fn split_spaces(s: Seq<char>) -> Seq<Seq<char>> {
    split_acc(s, Seq::empty())
}

/// The words of `line`, split on single spaces: consecutive spaces
/// yield empty words, and the segment after the last space is the
/// last word. This is how an input line becomes the word list handed
/// to the classifier.
pub fn split_words(line: &String) -> (r: Vec<String>)
    ensures
        r@.map_values(|w: String| w@) == split_spaces(line@),
{
    let s = line.as_str();
    let n = s.unicode_len();
    let mut r: Vec<String> = Vec::new();
    let mut start: usize = 0;
    let mut i: usize = 0;
    proof {
        assert(line@.skip(0) =~= line@);
        assert(line@.subrange(0, 0) =~= Seq::<char>::empty());
        assert(r@.map_values(|w: String| w@) + split_acc(line@, Seq::empty()) =~= split_acc(
            line@,
            Seq::empty(),
        ));
    }
    while i < n
        invariant
            s@ == line@,
            n == line@.len(),
            start <= i <= n,
            split_spaces(line@) == r@.map_values(|w: String| w@) + split_acc(
                line@.skip(i as int),
                line@.subrange(start as int, i as int),
            ),
        decreases n - i,
    {
        let c = s.get_char(i);
        let ghost prev = r@.map_values(|w: String| w@);
        let ghost cur = line@.subrange(start as int, i as int);
        proof {
            assert(line@.skip(i as int)[0] == line@[i as int]);
            assert(line@.skip(i as int).drop_first() =~= line@.skip(i as int + 1));
        }
        if c == ' ' {
            let w = s.substring_char(start, i).to_owned();
            r.push(w);
            start = i + 1;
            proof {
                assert(r@.map_values(|w: String| w@) =~= prev + seq![cur]);
                assert(prev + (seq![cur] + split_acc(line@.skip(i as int + 1), Seq::empty()))
                    =~= (prev + seq![cur]) + split_acc(line@.skip(i as int + 1), Seq::empty()));
                assert(line@.subrange(i as int + 1, i as int + 1) =~= Seq::<char>::empty());
            }
        } else {
            proof {
                assert(line@.subrange(start as int, i as int + 1) =~= cur.push(line@[i as int]));
            }
        }
        i += 1;
    }
    let ghost prev = r@.map_values(|w: String| w@);
    let ghost cur = line@.subrange(start as int, n as int);
    let w = s.substring_char(start, n).to_owned();
    r.push(w);
    proof {
        assert(line@.skip(n as int) =~= Seq::<char>::empty());
        assert(r@.map_values(|w: String| w@) =~= prev + seq![cur]);
    }
    r
}

/// The words joined back into a line, each followed by one space.
pub open spec fn join_words(vs: Seq<Seq<char>>) -> Seq<char>
    decreases vs.len(),
{
    if vs.len() == 0 {
        Seq::empty()
    } else {
        vs[0] + seq![' '] + join_words(vs.drop_first())
    }
}

/// Text without escape characters passes through stripping untouched.
proof fn lemma_strip_clean(a: Seq<char>, b: Seq<char>)
    requires
        forall|k: int| 0 <= k < a.len() ==> a[k] != '\x1B',
    ensures
        strip_from(a + b, false) == a + strip_from(b, false),
    decreases a.len(),
{
    if a.len() == 0 {
        assert(a + b =~= b);
        assert(a + strip_from(b, false) =~= strip_from(b, false));
    } else {
        assert((a + b)[0] == a[0]);
        assert((a + b).drop_first() =~= a.drop_first() + b);
        assert forall|k: int| 0 <= k < a.drop_first().len() implies a.drop_first()[k]
            != '\x1B' by {
            assert(a.drop_first()[k] == a[k + 1]);
        }
        lemma_strip_clean(a.drop_first(), b);
        assert(seq![a[0]] + (a.drop_first() + strip_from(b, false)) =~= a + strip_from(b, false));
    }
}

/// In escape mode, everything up to and including the closing 'm' is
/// dropped.
proof fn lemma_strip_escape_tail(a: Seq<char>, b: Seq<char>)
    requires
        forall|k: int| 0 <= k < a.len() ==> a[k] != 'm',
    ensures
        strip_from(a + seq!['m'] + b, true) == strip_from(b, false),
    decreases a.len(),
{
    if a.len() == 0 {
        assert((a + seq!['m'] + b)[0] == 'm');
        assert((a + seq!['m'] + b).drop_first() =~= b);
    } else {
        assert((a + seq!['m'] + b)[0] == a[0]);
        assert((a + seq!['m'] + b).drop_first() =~= a.drop_first() + seq!['m'] + b);
        assert forall|k: int| 0 <= k < a.drop_first().len() implies a.drop_first()[k] != 'm' by {
            assert(a.drop_first()[k] == a[k + 1]);
        }
        lemma_strip_escape_tail(a.drop_first(), b);
    }
}

/// A whole marker vanishes under stripping.
proof fn lemma_strip_marker(mk: Seq<char>, b: Seq<char>)
    requires
        is_marker(mk),
    ensures
        strip_from(mk + b, false) == strip_from(b, false),
{
    let mid = mk.subrange(1, mk.len() - 1);
    assert((mk + b)[0] == '\x1B');
    assert((mk + b).drop_first() =~= mid + seq!['m'] + b);
    assert forall|k: int| 0 <= k < mid.len() implies mid[k] != 'm' by {
        assert(mid[k] == mk[k + 1]);
    }
    lemma_strip_escape_tail(mid, b);
}

/// One rendered chunk strips to its word and one space.
proof fn lemma_strip_chunk(o: ColouredObject, ansis: Seq<Seq<char>>, rest: Seq<char>)
    requires
        ansis.len() > 0,
        forall|j: int| 0 <= j < ansis.len() ==> is_marker(#[trigger] ansis[j]),
        forall|k: int| 0 <= k < o.value@.len() ==> o.value@[k] != '\x1B',
    ensures
        strip_from(chunk_of(o, ansis) + rest, false) == o.value@ + seq![' '] + strip_from(
            rest,
            false,
        ),
{
    let v = o.value@;
    let tail = v + reset_seq() + seq![' '] + rest;
    lemma_reset_is_marker();
    lemma_strip_marker(reset_seq(), seq![' '] + rest);
    assert(strip_from(seq![' '] + rest, false) =~= seq![' '] + strip_from(rest, false)) by {
        lemma_strip_clean(seq![' '], rest);
    }
    assert(v + (reset_seq() + (seq![' '] + rest)) =~= tail);
    lemma_strip_clean(v, reset_seq() + (seq![' '] + rest));
    assert(strip_from(tail, false) =~= v + seq![' '] + strip_from(rest, false));
    match o.colour {
        Some(k) => {
            let mk = ansis[k.idx as int % ansis.len() as int];
            assert(is_marker(mk));
            assert(chunk_of(o, ansis) + rest =~= mk + tail);
            lemma_strip_marker(mk, tail);
        },
        None => {
            assert(chunk_of(o, ansis) + rest =~= tail);
        },
    }
}

/// A rendered line strips to its words joined by single spaces.
proof fn lemma_strip_render(objs: Seq<ColouredObject>, ansis: Seq<Seq<char>>, rest: Seq<char>)
    requires
        ansis.len() > 0,
        forall|j: int| 0 <= j < ansis.len() ==> is_marker(#[trigger] ansis[j]),
        forall|i: int, k: int|
            0 <= i < objs.len() && 0 <= k < objs[i].value@.len() ==> objs[i].value@[k] != '\x1B',
    ensures
        strip_from(spec_render(objs, ansis) + rest, false) == join_words(
            objs.map_values(|o: ColouredObject| o.value@),
        ) + strip_from(rest, false),
    decreases objs.len(),
{
    let vs = objs.map_values(|o: ColouredObject| o.value@);
    if objs.len() == 0 {
        assert(spec_render(objs, ansis) + rest =~= rest);
        assert(join_words(vs) + strip_from(rest, false) =~= strip_from(rest, false));
    } else {
        let df = objs.drop_first();
        assert(spec_render(objs, ansis) + rest =~= chunk_of(objs[0], ansis) + (spec_render(
            df,
            ansis,
        ) + rest));
        lemma_strip_chunk(objs[0], ansis, spec_render(df, ansis) + rest);
        assert forall|i: int, k: int|
            0 <= i < df.len() && 0 <= k < df[i].value@.len() implies df[i].value@[k] != '\x1B' by {
            assert(df[i] == objs[i + 1]);
        }
        lemma_strip_render(df, ansis, rest);
        assert(vs.drop_first() =~= df.map_values(|o: ColouredObject| o.value@));
        assert(vs[0] == objs[0].value@);
        assert(objs[0].value@ + seq![' '] + (join_words(vs.drop_first()) + strip_from(rest, false))
            =~= join_words(vs) + strip_from(rest, false));
    }
}

/// A word followed by a space closes the running segment.
proof fn lemma_split_word(w: Seq<char>, t: Seq<char>, cur: Seq<char>)
    requires
        forall|k: int| 0 <= k < w.len() ==> w[k] != ' ',
    ensures
        split_acc(w + seq![' '] + t, cur) == seq![cur + w] + split_acc(t, Seq::empty()),
    decreases w.len(),
{
    if w.len() == 0 {
        assert((w + seq![' '] + t)[0] == ' ');
        assert((w + seq![' '] + t).drop_first() =~= t);
        assert(cur + w =~= cur);
    } else {
        assert((w + seq![' '] + t)[0] == w[0]);
        assert((w + seq![' '] + t).drop_first() =~= w.drop_first() + seq![' '] + t);
        assert forall|k: int| 0 <= k < w.drop_first().len() implies w.drop_first()[k] != ' ' by {
            assert(w.drop_first()[k] == w[k + 1]);
        }
        lemma_split_word(w.drop_first(), t, cur.push(w[0]));
        assert(cur.push(w[0]) + w.drop_first() =~= cur + w);
    }
}

/// Splitting the joined words gives the words back, with the one empty
/// segment that the trailing space makes.
proof fn lemma_split_join(vs: Seq<Seq<char>>)
    requires
        forall|i: int, k: int| 0 <= i < vs.len() && 0 <= k < vs[i].len() ==> vs[i][k] != ' ',
    ensures
        split_spaces(join_words(vs)) == vs.push(Seq::empty()),
    decreases vs.len(),
{
    if vs.len() == 0 {
        assert(split_spaces(join_words(vs)) =~= seq![Seq::<char>::empty()]);
        assert(vs.push(Seq::empty()) =~= seq![Seq::<char>::empty()]);
    } else {
        let df = vs.drop_first();
        assert(join_words(vs) =~= vs[0] + seq![' '] + join_words(df));
        lemma_split_word(vs[0], join_words(df), Seq::empty());
        assert forall|i: int, k: int|
            0 <= i < df.len() && 0 <= k < df[i].len() implies df[i][k] != ' ' by {
            assert(df[i] == vs[i + 1]);
        }
        lemma_split_join(df);
        assert(Seq::<char>::empty() + vs[0] =~= vs[0]);
        assert(seq![vs[0]] + df.push(Seq::<char>::empty()) =~= vs.push(Seq::empty()));
    }
}

/// Every character of every segment of a split line satisfies whatever
/// held of the line's characters, and is never the separator itself.
proof fn lemma_split_acc_chars(s: Seq<char>, cur: Seq<char>, ok: spec_fn(char) -> bool)
    requires
        forall|k: int| 0 <= k < s.len() ==> ok(s[k]),
        forall|k: int| 0 <= k < cur.len() ==> ok(cur[k]) && cur[k] != ' ',
    ensures
        forall|i: int, k: int|
            0 <= i < split_acc(s, cur).len() && 0 <= k < split_acc(s, cur)[i].len() ==> ok(
                #[trigger] split_acc(s, cur)[i][k],
            ) && split_acc(s, cur)[i][k] != ' ',
    decreases s.len(),
{
    if s.len() == 0 {
        assert forall|i: int, k: int|
            0 <= i < split_acc(s, cur).len() && 0 <= k < split_acc(s, cur)[i].len() implies ok(
            #[trigger] split_acc(s, cur)[i][k],
        ) && split_acc(s, cur)[i][k] != ' ' by {
            assert(split_acc(s, cur)[i] == cur);
            assert(ok(cur[k]) && cur[k] != ' ');
        }
    } else if s[0] == ' ' {
        assert forall|k: int| 0 <= k < s.drop_first().len() implies ok(s.drop_first()[k]) by {
            assert(s.drop_first()[k] == s[k + 1]);
        }
        lemma_split_acc_chars(s.drop_first(), Seq::empty(), ok);
        let segs = split_acc(s, cur);
        let rec = split_acc(s.drop_first(), Seq::empty());
        assert forall|i: int, k: int|
            0 <= i < segs.len() && 0 <= k < segs[i].len() implies ok(#[trigger] segs[i][k])
            && segs[i][k] != ' ' by {
            if i == 0 {
                assert(segs[0] == cur);
            } else {
                assert(segs[i] == rec[i - 1]);
            }
        }
    } else {
        assert forall|k: int| 0 <= k < s.drop_first().len() implies ok(s.drop_first()[k]) by {
            assert(s.drop_first()[k] == s[k + 1]);
        }
        assert forall|k: int| 0 <= k < cur.push(s[0]).len() implies ok(cur.push(s[0])[k]) && cur.push(
            s[0],
        )[k] != ' ' by {
            if k < cur.len() {
                assert(cur.push(s[0])[k] == cur[k]);
            } else {
                assert(cur.push(s[0])[k] == s[0]);
            }
        }
        lemma_split_acc_chars(s.drop_first(), cur.push(s[0]), ok);
        assert(split_acc(s, cur) == split_acc(s.drop_first(), cur.push(s[0])));
    }
}

/// Round trip: stripping the colour and reset markers from a rendered
/// line and re-splitting it on spaces gives back the classified words
/// in their original order, with the one empty segment that the
/// trailing separator makes. It holds for any colour table whose
/// escape sequences are well-formed markers and any words free of the
/// escape character and the separator — as words split out of an input
/// line always are, unless the input itself carried escape characters.
pub proof fn lemma_render_round_trip(objs: Seq<ColouredObject>, ansis: Seq<Seq<char>>)
    requires
        ansis.len() > 0,
        forall|j: int| 0 <= j < ansis.len() ==> is_marker(#[trigger] ansis[j]),
        forall|i: int, k: int|
            0 <= i < objs.len() && 0 <= k < objs[i].value@.len() ==> objs[i].value@[k] != '\x1B'
                && objs[i].value@[k] != ' ',
    ensures
        split_spaces(strip_markers(spec_render(objs, ansis))) == objs.map_values(
            |o: ColouredObject| o.value@,
        ).push(Seq::empty()),
{
    let vs = objs.map_values(|o: ColouredObject| o.value@);
    lemma_strip_render(objs, ansis, Seq::empty());
    assert(spec_render(objs, ansis) + Seq::<char>::empty() =~= spec_render(objs, ansis));
    assert(join_words(vs) + strip_from(Seq::empty(), false) =~= join_words(vs));
    assert forall|i: int, k: int|
        0 <= i < vs.len() && 0 <= k < vs[i].len() implies vs[i][k] != ' ' by {
        assert(vs[i] == objs[i].value@);
    }
    lemma_split_join(vs);
}

/// The whole pipeline round-trips: classify the words of a line,
/// render the result, strip the markers, split again — the original
/// words come back, followed by the one empty segment of the trailing
/// separator. It holds for any line free of the escape character and
/// any non-empty colour table of well-formed markers; an input that
/// itself carries escape characters can lose them to the stripping.
pub proof fn lemma_pipeline_round_trip(
    line: Seq<char>,
    objs: Seq<ColouredObject>,
    ansis: Seq<Seq<char>>,
)
    requires
        forall|k: int| 0 <= k < line.len() ==> line[k] != '\x1B',
        ansis.len() > 0,
        forall|j: int| 0 <= j < ansis.len() ==> is_marker(#[trigger] ansis[j]),
        objs.map_values(|o: ColouredObject| o.value@) == split_spaces(line),
    ensures
        split_spaces(strip_markers(spec_render(objs, ansis))) == split_spaces(line).push(
            Seq::empty(),
        ),
{
    lemma_split_acc_chars(line, Seq::empty(), |c: char| c != '\x1B');
    let vs = objs.map_values(|o: ColouredObject| o.value@);
    assert forall|i: int, k: int|
        0 <= i < objs.len() && 0 <= k < objs[i].value@.len() implies objs[i].value@[k] != '\x1B'
        && objs[i].value@[k] != ' ' by {
        assert(vs[i] == objs[i].value@);
        assert(split_spaces(line)[i][k] == vs[i][k]);
    }
    lemma_render_round_trip(objs, ansis);
}

} // verus!
