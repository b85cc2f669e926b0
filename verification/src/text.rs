//! Character-sequence helpers shared by the rest of the library: conversions
//! between `String` and `Vec<char>`, case mapping, splitting and joining.
use vstd::prelude::*;
use vstd::string::StringExecFns;

verus! {

broadcast use vstd::string::group_string_axioms;

// ---------------------------------------------------------------------------
// Case mapping (std's Unicode tables)
// ---------------------------------------------------------------------------

/// The string that `str::to_lowercase` returns for `s` (Unicode lower-case mapping).
pub uninterp spec fn lowercase(s: Seq<char>) -> Seq<char>;

/// The string that `char::to_uppercase` yields for `c`, collected (Unicode upper-case mapping).
pub uninterp spec fn uppercase(c: char) -> Seq<char>;

/// Calls `str::to_lowercase`. Claimed: the result is `lowercase` of the argument's
/// characters, a function of them alone; nothing more is stated of the Unicode mapping.
#[verifier::external_body]
pub(crate) fn to_lowercase(s: &str) -> (r: String)
    ensures
        r@ == lowercase(s@),
{
    s.to_lowercase()
}

/// Calls `char::to_uppercase` and collects the characters it yields. Claimed: the result
/// is `uppercase(c)`, a function of `c` alone; the Unicode mapping itself is not stated.
#[verifier::external_body]
pub(crate) fn char_to_uppercase(c: char) -> (r: String)
    ensures
        r@ == uppercase(c),
{
    c.to_uppercase().collect::<String>()
}

/// Calls `String::push`. Claimed, as its documentation says: `c` is appended at the end.
#[verifier::external_body]
pub(crate) fn push_char(s: &mut String, c: char)
    ensures
        final(s)@ == old(s)@.push(c),
{
    s.push(c);
}

// ---------------------------------------------------------------------------
// Conversions
// ---------------------------------------------------------------------------

/// The characters of `s`, in order.
pub fn chars_of(s: &str) -> (r: Vec<char>)
    ensures
        r@ == s@,
{
    let mut r: Vec<char> = Vec::new();
    for c in it: s.chars()
        invariant
            r@ == it.seq().take(it.index() as int),
    {
        r.push(c);
    }
    r
}

/// Appends the characters `cs` to `out`.
pub fn push_chars(out: &mut String, cs: &Vec<char>)
    ensures
        final(out)@ == old(out)@ + cs@,
{
    let mut i: usize = 0;
    while i < cs.len()
        invariant
            i <= cs.len(),
            out@ == old(out)@ + cs@.take(i as int),
        decreases cs.len() - i,
    {
        push_char(out, cs[i]);
        assert(cs@.take(i + 1) =~= cs@.take(i as int).push(cs@[i as int]));
        i = i + 1;
    }
    assert(cs@.take(cs.len() as int) =~= cs@);
}

/// A `String` holding the characters `cs`.
pub fn string_of(cs: &Vec<char>) -> (r: String)
    ensures
        r@ == cs@,
{
    let mut r = String::new();
    push_chars(&mut r, cs);
    r
}

/// Appends the string `s` to `out`.
pub fn push_str(out: &mut String, s: &str)
    ensures
        final(out)@ == old(out)@ + s@,
{
    out.append(s);
}

// ---------------------------------------------------------------------------
// Whitespace, replacement, splitting, joining
// ---------------------------------------------------------------------------

/// Characters with the Unicode `White_Space` property.
pub open spec fn is_white_space(c: char) -> bool {
    ||| ('\u{9}' <= c && c <= '\u{d}')
    ||| c == ' '
    ||| c == '\u{85}'
    ||| c == '\u{a0}'
    ||| c == '\u{1680}'
    ||| ('\u{2000}' <= c && c <= '\u{200a}')
    ||| c == '\u{2028}'
    ||| c == '\u{2029}'
    ||| c == '\u{202f}'
    ||| c == '\u{205f}'
    ||| c == '\u{3000}'
}

/// Whether `c` is a white-space character.
pub fn is_space(c: char) -> (r: bool)
    ensures
        r == is_white_space(c),
{
    ('\u{9}' <= c && c <= '\u{d}') || c == ' ' || c == '\u{85}' || c == '\u{a0}' || c
        == '\u{1680}' || ('\u{2000}' <= c && c <= '\u{200a}') || c == '\u{2028}' || c
        == '\u{2029}' || c == '\u{202f}' || c == '\u{205f}' || c == '\u{3000}'
}

/// `s` with every occurrence of `from` replaced by the sequence `to`.
pub open spec fn replace_char(s: Seq<char>, from: char, to: Seq<char>) -> Seq<char>
    decreases s.len(),
{
    if s.len() == 0 {
        s
    } else {
        replace_char(s.drop_last(), from, to) + (if s.last() == from {
            to
        } else {
            seq![s.last()]
        })
    }
}

/// Replaces every `from` in `s` by `to`.
pub fn replace_chars(s: &Vec<char>, from: char, to: char) -> (r: Vec<char>)
    ensures
        r@ == replace_char(s@, from, seq![to]),
{
    let mut r: Vec<char> = Vec::new();
    let mut i: usize = 0;
    while i < s.len()
        invariant
            i <= s.len(),
            r@ == replace_char(s@.take(i as int), from, seq![to]),
        decreases s.len() - i,
    {
        assert(s@.take(i + 1).drop_last() =~= s@.take(i as int));
        if s[i] == from {
            r.push(to);
        } else {
            r.push(s[i]);
        }
        assert(r@ =~= replace_char(s@.take(i + 1), from, seq![to]));
        i = i + 1;
    }
    assert(s@.take(s.len() as int) =~= s@);
    r
}

/// The pieces of `s` between occurrences of `sep`, as `str::split` gives them:
/// one more piece than there are separators, empty pieces included.
pub open spec fn split_on(s: Seq<char>, sep: char) -> Seq<Seq<char>>
    decreases s.len(),
{
    if s.len() == 0 {
        seq![Seq::empty()]
    } else {
        let pieces = split_on(s.drop_last(), sep);
        if s.last() == sep {
            pieces.push(Seq::empty())
        } else {
            pieces.update(pieces.len() - 1, pieces.last().push(s.last()))
        }
    }
}

/// The maximal runs of non-white-space characters of `s`, as `str::split_whitespace`
/// gives them.
pub open spec fn words(s: Seq<char>) -> Seq<Seq<char>>
    decreases s.len(),
{
    if s.len() == 0 {
        Seq::empty()
    } else {
        let ws = words(s.drop_last());
        if is_white_space(s.last()) {
            ws
        } else if s.len() >= 2 && !is_white_space(s[s.len() - 2]) {
            ws.update(ws.len() - 1, ws.last().push(s.last()))
        } else {
            ws.push(seq![s.last()])
        }
    }
}

/// The pieces `ws` joined with `sep` between neighbours, as `[T]::join` gives it.
pub open spec fn join(ws: Seq<Seq<char>>, sep: Seq<char>) -> Seq<char>
    decreases ws.len(),
{
    if ws.len() == 0 {
        Seq::empty()
    } else if ws.len() == 1 {
        ws[0]
    } else {
        join(ws.drop_last(), sep) + sep + ws.last()
    }
}

/// `w` with its first character upper-cased.
pub open spec fn capitalize(w: Seq<char>) -> Seq<char> {
    if w.len() == 0 {
        w
    } else {
        uppercase(w[0]) + w.drop_first()
    }
}

/// Every word of `ws` capitalized, joined with single spaces.
pub open spec fn title_case(ws: Seq<Seq<char>>) -> Seq<char> {
    join(ws.map_values(|w: Seq<char>| capitalize(w)), seq![' '])
}

/// Replacing a character that does not occur changes nothing.
pub proof fn lemma_replace_absent(s: Seq<char>, from: char, to: Seq<char>)
    requires
        forall|m: int| 0 <= m < s.len() ==> s[m] != from,
    ensures
        replace_char(s, from, to) == s,
    decreases s.len(),
{
    if s.len() > 0 {
        lemma_replace_absent(s.drop_last(), from, to);
        assert(s.drop_last() + seq![s.last()] =~= s);
    }
}

/// A non-empty string without white space is a single word.
pub proof fn lemma_words_single(s: Seq<char>)
    requires
        s.len() > 0,
        forall|m: int| 0 <= m < s.len() ==> !is_white_space(s[m]),
    ensures
        words(s) == seq![s],
    decreases s.len(),
{
    if s.len() == 1 {
        assert(words(s.drop_last()) =~= Seq::<Seq<char>>::empty());
        assert(seq![s.last()] =~= s);
        assert(words(s) =~= seq![s]);
    } else {
        lemma_words_single(s.drop_last());
        assert(s.drop_last().push(s.last()) =~= s);
        assert(words(s) =~= seq![s]);
    }
}

/// A string without the separator is a single piece.
pub proof fn lemma_split_single(s: Seq<char>, sep: char)
    requires
        forall|m: int| 0 <= m < s.len() ==> s[m] != sep,
    ensures
        split_on(s, sep) == seq![s],
    decreases s.len(),
{
    if s.len() == 0 {
        assert(s =~= Seq::<char>::empty());
        assert(split_on(s, sep) =~= seq![s]);
    } else {
        lemma_split_single(s.drop_last(), sep);
        assert(s.last() == s[s.len() - 1]);
        assert(s.last() != sep);
        let pieces = split_on(s.drop_last(), sep);
        assert(pieces.last() == s.drop_last());
        assert(s.drop_last().push(s.last()) =~= s);
        assert(pieces.update(0, s) =~= seq![s]);
        assert(split_on(s, sep) =~= seq![s]);
    }
}

/// A single word in title case is the word with its first character upper-cased and
/// the rest as written.
pub proof fn lemma_title_case_single(w: Seq<char>)
    requires
        w.len() > 0,
    ensures
        title_case(seq![w]) == uppercase(w[0]) + w.drop_first(),
{
    let caps = seq![w].map_values(|x: Seq<char>| capitalize(x));
    assert(caps =~= seq![capitalize(w)]);
}

/// Replacement works piece by piece.
pub proof fn lemma_replace_concat(x: Seq<char>, y: Seq<char>, from: char, to: Seq<char>)
    ensures
        replace_char(x + y, from, to) == replace_char(x, from, to) + replace_char(y, from, to),
    decreases y.len(),
{
    if y.len() == 0 {
        assert(x + y =~= x);
        assert(replace_char(y, from, to) =~= Seq::<char>::empty());
        assert(replace_char(x, from, to) + replace_char(y, from, to) =~= replace_char(x, from, to));
    } else {
        lemma_replace_concat(x, y.drop_last(), from, to);
        assert((x + y).drop_last() =~= x + y.drop_last());
        assert((x + y).last() == y.last());
    }
}

/// Replacement in a single character.
pub proof fn lemma_replace_one(c: char, from: char, to: Seq<char>)
    ensures
        replace_char(seq![c], from, to) == (if c == from {
            to
        } else {
            seq![c]
        }),
{
    assert(seq![c].drop_last() =~= Seq::<char>::empty());
    assert(replace_char(Seq::<char>::empty(), from, to) =~= Seq::<char>::empty());
    assert(Seq::<char>::empty() + to =~= to);
    assert(Seq::<char>::empty() + seq![c] =~= seq![c]);
}

/// Two words separated by one white-space character are those two words.
pub proof fn lemma_words_two(a: Seq<char>, c: char, b: Seq<char>)
    requires
        a.len() > 0,
        b.len() > 0,
        is_white_space(c),
        forall|m: int| 0 <= m < a.len() ==> !is_white_space(a[m]),
        forall|m: int| 0 <= m < b.len() ==> !is_white_space(b[m]),
    ensures
        words(a + seq![c] + b) == seq![a, b],
    decreases b.len(),
{
    lemma_words_single(a);
    let u = a + seq![c];
    assert(u.drop_last() =~= a);
    assert(words(u) == seq![a]);
    if b.len() == 1 {
        let t = u + b;
        assert(t.drop_last() =~= u);
        assert(t.last() == b[0]);
        assert(t[t.len() - 2] == c);
        assert(b =~= seq![b[0]]);
        assert(seq![a].push(seq![b[0]]) =~= seq![a, b]);
    } else {
        let b0 = b.drop_last();
        lemma_words_two(a, c, b0);
        let t = u + b;
        assert(t.drop_last() =~= a + seq![c] + b0);
        assert(t.last() == b[b.len() - 1]);
        assert(t[t.len() - 2] == b[b.len() - 2]);
        let ws = seq![a, b0];
        assert(b0.push(b.last()) =~= b);
        assert(ws.update(1, b0.push(b.last())) =~= seq![a, b]);
    }
}

/// Two pieces separated by one separator are those two pieces.
pub proof fn lemma_split_two(a: Seq<char>, sep: char, b: Seq<char>)
    requires
        forall|m: int| 0 <= m < a.len() ==> a[m] != sep,
        forall|m: int| 0 <= m < b.len() ==> b[m] != sep,
    ensures
        split_on(a + seq![sep] + b, sep) == seq![a, b],
    decreases b.len(),
{
    lemma_split_single(a, sep);
    let u = a + seq![sep];
    assert(u.drop_last() =~= a);
    assert(split_on(u, sep) =~= seq![a, Seq::<char>::empty()]);
    if b.len() == 0 {
        assert(u + b =~= u);
        assert(b =~= Seq::<char>::empty());
    } else {
        let b0 = b.drop_last();
        lemma_split_two(a, sep, b0);
        let t = u + b;
        assert(t.drop_last() =~= a + seq![sep] + b0);
        assert(t.last() == b[b.len() - 1]);
        let ps = seq![a, b0];
        assert(b0.push(b.last()) =~= b);
        assert(ps.update(1, b0.push(b.last())) =~= seq![a, b]);
    }
}

/// Two words in title case are each capitalized, joined by a space.
pub proof fn lemma_title_case_two(a: Seq<char>, b: Seq<char>)
    ensures
        title_case(seq![a, b]) == capitalize(a) + seq![' '] + capitalize(b),
{
    let caps = seq![a, b].map_values(|x: Seq<char>| capitalize(x));
    assert(caps =~= seq![capitalize(a), capitalize(b)]);
    assert(caps.drop_last() =~= seq![capitalize(a)]);
    assert(join(seq![capitalize(a)], seq![' ']) == capitalize(a));
    assert(join(caps, seq![' ']) == join(caps.drop_last(), seq![' ']) + seq![' '] + caps.last());
}

/// The views of a list of character vectors.
pub open spec fn views(v: Seq<Vec<char>>) -> Seq<Seq<char>> {
    v.map_values(|w: Vec<char>| w@)
}

/// Splits `s` at every `sep`.
pub fn split_at_char(s: &Vec<char>, sep: char) -> (r: Vec<Vec<char>>)
    ensures
        views(r@) == split_on(s@, sep),
{
    let mut done: Vec<Vec<char>> = Vec::new();
    let mut cur: Vec<char> = Vec::new();
    let mut i: usize = 0;
    assert(views(done@).push(cur@) =~= split_on(s@.take(0), sep));
    while i < s.len()
        invariant
            i <= s.len(),
            views(done@).push(cur@) == split_on(s@.take(i as int), sep),
        decreases s.len() - i,
    {
        let ghost before = s@.take(i as int);
        assert(s@.take(i + 1).drop_last() =~= before);
        let c = s[i];
        if c == sep {
            done.push(cur);
            cur = Vec::new();
            assert(views(done@).push(cur@) =~= split_on(before, sep).push(Seq::empty()));
        } else {
            cur.push(c);
            let ghost p = split_on(before, sep);
            assert(views(done@).push(cur@) =~= p.update(p.len() - 1, p.last().push(c)));
        }
        i = i + 1;
    }
    assert(s@.take(s.len() as int) =~= s@);
    done.push(cur);
    assert(views(done@) =~= split_on(s@, sep));
    done
}

/// Splits `s` into its white-space separated words.
pub fn split_words(s: &Vec<char>) -> (r: Vec<Vec<char>>)
    ensures
        views(r@) == words(s@),
{
    let mut done: Vec<Vec<char>> = Vec::new();
    let mut cur: Vec<char> = Vec::new();
    let mut i: usize = 0;
    while i < s.len()
        invariant
            i <= s.len(),
            cur@.len() == 0 ==> views(done@) == words(s@.take(i as int)),
            cur@.len() > 0 ==> views(done@).push(cur@) == words(s@.take(i as int)),
            cur@.len() > 0 ==> i >= 1 && !is_white_space(s@[i - 1]),
            cur@.len() == 0 ==> i == 0 || is_white_space(s@[i - 1]),
        decreases s.len() - i,
    {
        let ghost before = s@.take(i as int);
        let ghost after = s@.take(i + 1);
        assert(after.drop_last() =~= before);
        let c = s[i];
        if is_space(c) {
            if cur.len() > 0 {
                done.push(cur);
                cur = Vec::new();
            }
        } else {
            assert(after.last() == c);
            if cur.len() == 0 {
                assert(i == 0 || after[after.len() - 2] == s@[i - 1]);
                assert(words(after) == words(before).push(seq![c]));
                assert(cur@ =~= Seq::<char>::empty());
                cur.push(c);
                assert(cur@ =~= seq![c]);
                assert(views(done@).push(cur@) =~= words(before).push(seq![c]));
            } else {
                assert(after[after.len() - 2] == s@[i - 1]);
                let ghost ws = words(before);
                assert(words(after) == ws.update(ws.len() - 1, ws.last().push(c)));
                let ghost old_cur = cur@;
                assert(ws.last() == old_cur);
                cur.push(c);
                assert(views(done@).push(cur@) =~= ws.update(ws.len() - 1, ws.last().push(c)));
            }
        }
        i = i + 1;
    }
    assert(s@.take(s.len() as int) =~= s@);
    if cur.len() > 0 {
        done.push(cur);
    }
    done
}

/// Every word of `ws` capitalized, joined with single spaces.
pub fn join_title_case(ws: &Vec<Vec<char>>) -> (r: String)
    ensures
        r@ == title_case(views(ws@)),
{
    let ghost caps = views(ws@).map_values(|w: Seq<char>| capitalize(w));
    let mut r = String::new();
    let mut i: usize = 0;
    while i < ws.len()
        invariant
            i <= ws.len(),
            caps == views(ws@).map_values(|w: Seq<char>| capitalize(w)),
            r@ == join(caps.take(i as int), seq![' ']),
        decreases ws.len() - i,
    {
        let w = &ws[i];
        let ghost before = r@;
        if i > 0 {
            push_char(&mut r, ' ');
        }
        if w.len() > 0 {
            let up = char_to_uppercase(w[0]);
            push_str(&mut r, up.as_str());
            let mut j: usize = 1;
            while j < w.len()
                invariant
                    1 <= j <= w.len(),
                    r@ == (if i > 0 { before + seq![' '] } else { before }) + uppercase(w@[0])
                        + w@.subrange(1, j as int),
                decreases w.len() - j,
            {
                push_char(&mut r, w[j]);
                assert(w@.subrange(1, j + 1) =~= w@.subrange(1, j as int).push(w@[j as int]));
                j = j + 1;
            }
        }
        let ghost t = caps.take(i + 1);
        assert(t.drop_last() =~= caps.take(i as int));
        assert(caps[i as int] == capitalize(ws@[i as int]@));
        assert(w@.drop_first() =~= w@.subrange(1, w@.len() as int));
        assert(r@ =~= join(t, seq![' ']));
        i = i + 1;
    }
    assert(caps.take(ws.len() as int) =~= caps);
    r
}

} // verus!
