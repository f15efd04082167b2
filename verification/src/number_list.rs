//! The text format of a list of numbers: fields separated by commas, each
//! field with surrounding white space ignored.  This module splits such a
//! text into its trimmed fields and joins fields back with a separator.

use vstd::prelude::*;

use crate::text::{chars_of, push_char};

verus! {

/// Whether `c` has the Unicode `White_Space` property: the 25 code points
/// U+0009..U+000D, U+0020, U+0085, U+00A0, U+1680, U+2000..U+200A, U+2028,
/// U+2029, U+202F, U+205F and U+3000.
pub open spec fn unicode_white_space(c: char) -> bool {
    let v = c as u32;
    ||| 0x9 <= v <= 0xD
    ||| v == 0x20
    ||| v == 0x85
    ||| v == 0xA0
    ||| v == 0x1680
    ||| 0x2000 <= v <= 0x200A
    ||| v == 0x2028
    ||| v == 0x2029
    ||| v == 0x202F
    ||| v == 0x205F
    ||| v == 0x3000
}

/// Whether `c` is white space in the Unicode sense.
pub fn is_white_space(c: char) -> (r: bool)
    ensures
        r == unicode_white_space(c),
{
    let v = c as u32;
    (0x9 <= v && v <= 0xD) || v == 0x20 || v == 0x85 || v == 0xA0 || v == 0x1680 || (0x2000 <= v
        && v <= 0x200A) || v == 0x2028 || v == 0x2029 || v == 0x202F || v == 0x205F || v == 0x3000
}

/// `s` cut at every occurrence of `sep`; there is always one more piece than
/// there are separators, and the pieces hold no `sep`.
pub open spec fn split_on(s: Seq<char>, sep: char) -> Seq<Seq<char>>
    decreases s.len(),
{
    if s.len() == 0 {
        seq![Seq::empty()]
    } else {
        let pieces = split_on(s.drop_last(), sep);
        if s.last() == sep {
            pieces.push(Seq::empty())
        } else {
            pieces.update(pieces.len() - 1, pieces.last().push(s.last()))
        }
    }
}

/// `s` without its leading white space.
pub open spec fn trim_start(s: Seq<char>) -> Seq<char>
    decreases s.len(),
{
    if s.len() > 0 && unicode_white_space(s[0]) {
        trim_start(s.drop_first())
    } else {
        s
    }
}

/// `s` without its trailing white space.
pub open spec fn trim_end(s: Seq<char>) -> Seq<char>
    decreases s.len(),
{
    if s.len() > 0 && unicode_white_space(s.last()) {
        trim_end(s.drop_last())
    } else {
        s
    }
}

/// `s` without its leading and trailing white space.
pub open spec fn trim(s: Seq<char>) -> Seq<char> {
    trim_end(trim_start(s))
}

/// The fields of a comma-separated text, each trimmed.
pub open spec fn fields(s: Seq<char>) -> Seq<Seq<char>> {
    split_on(s, ',').map_values(|f: Seq<char>| trim(f))
}

/// `parts` with `sep` between each two neighbours.
pub open spec fn join(parts: Seq<Seq<char>>, sep: Seq<char>) -> Seq<char>
    decreases parts.len(),
{
    if parts.len() == 0 {
        Seq::empty()
    } else if parts.len() == 1 {
        parts[0]
    } else {
        join(parts.drop_last(), sep) + sep + parts.last()
    }
}

/// The number of times `c` occurs in `s`.
pub open spec fn occurrences(s: Seq<char>, c: char) -> nat {
    s.filter(|x: char| x == c).len()
}

/// Joining a sequence of pieces with one more piece appended adds the
/// separator and that piece at the end; one piece joins to itself, and no
/// pieces to the empty text.
pub proof fn law_join_push(parts: Seq<Seq<char>>, sep: Seq<char>, x: Seq<char>)
    ensures
        join(Seq::<Seq<char>>::empty(), sep) == Seq::<char>::empty(),
        join(seq![x], sep) == x,
        parts.len() >= 1 ==> join(parts.push(x), sep) == join(parts, sep) + sep + x,
{
    assert(parts.push(x).drop_last() =~= parts);
}

/// The length of a joined text is the sum of the lengths of the pieces plus
/// one separator between each two neighbours.
pub proof fn law_join_len(parts: Seq<Seq<char>>, sep: Seq<char>)
    ensures
        parts.len() >= 1 ==> join(parts, sep).len() == total_len(parts) + (parts.len() - 1)
            * sep.len(),
    decreases parts.len(),
{
    if parts.len() == 1 {
        assert(total_len(parts.drop_last()) == 0);
        assert(join(parts, sep) == parts[0]);
    } else if parts.len() >= 2 {
        law_join_len(parts.drop_last(), sep);
        assert((parts.len() - 1) * sep.len() == (parts.len() - 2) * sep.len() + sep.len())
            by (nonlinear_arith);
    }
}

/// The sum of the lengths of `parts`.
pub open spec fn total_len(parts: Seq<Seq<char>>) -> int
    decreases parts.len(),
{
    if parts.len() == 0 {
        0
    } else {
        total_len(parts.drop_last()) + parts.last().len()
    }
}

/// Growing the last piece of a non-empty list grows the joined text by the
/// same characters.
proof fn lemma_join_extend_last(parts: Seq<Seq<char>>, sep: Seq<char>, t: Seq<char>)
    requires
        parts.len() >= 1,
    ensures
        join(parts.update(parts.len() - 1, parts.last() + t), sep) == join(parts, sep) + t,
{
    let q = parts.update(parts.len() - 1, parts.last() + t);
    if parts.len() >= 2 {
        assert(q.drop_last() =~= parts.drop_last());
        assert(join(q, sep) =~= join(parts, sep) + t);
    } else {
        assert(join(q, sep) =~= join(parts, sep) + t);
    }
}

/// Cutting `s` at `sep` and joining the pieces back with `sep` gives `s`
/// again; no piece holds `sep`; and there is one more piece than there are
/// occurrences of `sep` in `s`.
pub proof fn law_split_on(s: Seq<char>, sep: char)
    ensures
        split_on(s, sep).len() == occurrences(s, sep) + 1,
        join(split_on(s, sep), seq![sep]) == s,
        forall|i: int| 0 <= i < split_on(s, sep).len() ==> !(#[trigger] split_on(s, sep)[i]).contains(sep),
    decreases s.len(),
{
    reveal(Seq::filter);
    if s.len() == 0 {
        assert(!Seq::<char>::empty().contains(sep));
        assert(split_on(s, sep)[0] =~= Seq::<char>::empty());
    } else {
        let init = s.drop_last();
        law_split_on(init, sep);
        let pieces = split_on(init, sep);
        assert(s.filter(|x: char| x == sep) == if s.last() == sep {
            init.filter(|x: char| x == sep).push(s.last())
        } else {
            init.filter(|x: char| x == sep)
        });
        if s.last() == sep {
            law_join_push(pieces, seq![sep], Seq::empty());
            assert(join(pieces.push(Seq::empty()), seq![sep]) =~= s);
            assert forall|i: int| 0 <= i < split_on(s, sep).len() implies !(
            #[trigger] split_on(s, sep)[i]).contains(sep) by {
                if i < pieces.len() {
                    assert(split_on(s, sep)[i] == pieces[i]);
                } else {
                    assert(split_on(s, sep)[i] =~= Seq::<char>::empty());
                }
            }
        } else {
            lemma_join_extend_last(pieces, seq![sep], seq![s.last()]);
            assert(pieces.last() + seq![s.last()] =~= pieces.last().push(s.last()));
            assert(join(split_on(s, sep), seq![sep]) =~= s);
            assert forall|i: int| 0 <= i < split_on(s, sep).len() implies !(
            #[trigger] split_on(s, sep)[i]).contains(sep) by {
                if i < pieces.len() - 1 {
                    assert(split_on(s, sep)[i] == pieces[i]);
                } else {
                    let last = pieces.last().push(s.last());
                    assert(split_on(s, sep)[i] == last);
                    assert(!pieces[pieces.len() - 1].contains(sep));
                    if last.contains(sep) {
                        let k = choose|k: int| 0 <= k < last.len() && last[k] == sep;
                        assert(pieces.last()[k] == sep);
                    }
                }
            }
        }
    }
}

/// Where trimming `f` starts: the number of white-space characters at its
/// front.
proof fn lemma_trim_start_shape(f: Seq<char>) -> (a: int)
    ensures
        0 <= a <= f.len(),
        trim_start(f) == f.subrange(a, f.len() as int),
        forall|k: int| 0 <= k < a ==> unicode_white_space(#[trigger] f[k]),
        a < f.len() ==> !unicode_white_space(f[a]),
    decreases f.len(),
{
    if f.len() > 0 && unicode_white_space(f[0]) {
        let a0 = lemma_trim_start_shape(f.drop_first());
        assert(f.drop_first().subrange(a0, f.len() - 1) =~= f.subrange(a0 + 1, f.len() as int));
        assert forall|k: int| 0 <= k < a0 + 1 implies unicode_white_space(#[trigger] f[k]) by {
            if k > 0 {
                assert(f[k] == f.drop_first()[k - 1]);
            }
        }
        assert(a0 + 1 < f.len() ==> f[a0 + 1] == f.drop_first()[a0]);
        a0 + 1
    } else {
        assert(f.subrange(0, f.len() as int) =~= f);
        0
    }
}

/// Where trimming `f` ends: its length less the white space at its back.
proof fn lemma_trim_end_shape(f: Seq<char>) -> (b: int)
    ensures
        0 <= b <= f.len(),
        trim_end(f) == f.subrange(0, b),
        forall|k: int| b <= k < f.len() ==> unicode_white_space(#[trigger] f[k]),
        b > 0 ==> !unicode_white_space(f[b - 1]),
    decreases f.len(),
{
    if f.len() > 0 && unicode_white_space(f.last()) {
        let b0 = lemma_trim_end_shape(f.drop_last());
        assert(f.drop_last().subrange(0, b0) =~= f.subrange(0, b0));
        assert forall|k: int| b0 <= k < f.len() implies unicode_white_space(#[trigger] f[k]) by {
            if k < f.len() - 1 {
                assert(f[k] == f.drop_last()[k]);
            }
        }
        assert(b0 > 0 ==> f[b0 - 1] == f.drop_last()[b0 - 1]);
        b0
    } else {
        assert(f.subrange(0, f.len() as int) =~= f);
        f.len() as int
    }
}

/// Trimming keeps one contiguous stretch `f[a..b]` of `f`: everything cut
/// off before `a` and after `b` is white space, and what is kept is empty or
/// neither starts nor ends with white space.
pub proof fn law_trim(f: Seq<char>) -> (cut: (int, int))
    ensures
        0 <= cut.0 <= cut.1 <= f.len(),
        trim(f) == f.subrange(cut.0, cut.1),
        forall|k: int| 0 <= k < cut.0 ==> unicode_white_space(#[trigger] f[k]),
        forall|k: int| cut.1 <= k < f.len() ==> unicode_white_space(#[trigger] f[k]),
        trim(f).len() == 0 || (!unicode_white_space(trim(f)[0]) && !unicode_white_space(
            trim(f).last(),
        )),
{
    let a = lemma_trim_start_shape(f);
    let g = f.subrange(a, f.len() as int);
    let b = lemma_trim_end_shape(g);
    assert(g.subrange(0, b) =~= f.subrange(a, a + b));
    assert forall|k: int| a + b <= k < f.len() implies unicode_white_space(#[trigger] f[k]) by {
        assert(f[k] == g[k - a]);
    }
    if b > 0 {
        assert(trim(f)[0] == g[0]);
        assert(trim(f).last() == g[b - 1]);
    }
    (a, a + b)
}

/// The fields of a text are its comma-separated pieces, each trimmed: there
/// is one more field than there are commas, no field holds a comma, and every
/// field, the last one included, is empty or neither starts nor ends with
/// white space.
pub proof fn law_fields(s: Seq<char>)
    ensures
        fields(s).len() == split_on(s, ',').len(),
        fields(s).len() == occurrences(s, ',') + 1,
        forall|i: int| 0 <= i < fields(s).len() ==> #[trigger] fields(s)[i] == trim(split_on(s, ',')[i]),
        forall|i: int| 0 <= i < fields(s).len() ==> !(#[trigger] fields(s)[i]).contains(','),
        forall|i: int|
            0 <= i < fields(s).len() ==> (#[trigger] fields(s)[i]).len() == 0 || (
            !unicode_white_space(fields(s)[i][0]) && !unicode_white_space(fields(s)[i].last())),
{
    law_split_on(s, ',');
    assert forall|i: int| 0 <= i < fields(s).len() implies !(#[trigger] fields(s)[i]).contains(',')
        && ((fields(s)[i]).len() == 0 || (!unicode_white_space(fields(s)[i][0])
        && !unicode_white_space(fields(s)[i].last()))) by {
        let piece = split_on(s, ',')[i];
        let cut = law_trim(piece);
        assert(!piece.contains(','));
        if fields(s)[i].contains(',') {
            let k = choose|k: int| 0 <= k < fields(s)[i].len() && fields(s)[i][k] == ',';
            assert(piece[cut.0 + k] == ',');
        }
    }
}

/// The characters `chars[start..end]` without leading or trailing white
/// space, as a `String`.
fn trimmed(chars: &Vec<char>, start: usize, end: usize) -> (r: String)
    requires
        start <= end <= chars.len(),
    ensures
        r@ == trim(chars@.subrange(start as int, end as int)),
{
    let mut a = start;
    while a < end && is_white_space(chars[a])
        invariant
            start <= a <= end <= chars.len(),
            trim_start(chars@.subrange(start as int, end as int)) == trim_start(
                chars@.subrange(a as int, end as int),
            ),
        decreases end - a,
    {
        assert(chars@.subrange(a as int, end as int).drop_first() =~= chars@.subrange(
            a as int + 1,
            end as int,
        ));
        a = a + 1;
    }
    assert(trim_start(chars@.subrange(start as int, end as int)) == chars@.subrange(
        a as int,
        end as int,
    ));
    let mut b = end;
    while b > a && is_white_space(chars[b - 1])
        invariant
            start <= a <= b <= end <= chars.len(),
            trim(chars@.subrange(start as int, end as int)) == trim_end(
                chars@.subrange(a as int, b as int),
            ),
        decreases b - a,
    {
        assert(chars@.subrange(a as int, b as int).drop_last() =~= chars@.subrange(
            a as int,
            b as int - 1,
        ));
        b = b - 1;
    }
    assert(trim(chars@.subrange(start as int, end as int)) == chars@.subrange(a as int, b as int));
    let mut out = String::new();
    let mut k = a;
    while k < b
        invariant
            a <= k <= b <= chars.len(),
            out@ == chars@.subrange(a as int, k as int),
        decreases b - k,
    {
        push_char(&mut out, chars[k]);
        assert(out@ =~= chars@.subrange(a as int, k as int + 1));
        k = k + 1;
    }
    out
}

/// The comma-separated fields of `input`, each without leading or trailing
/// white space.  A text without commas is one field; an empty text is one
/// empty field.
pub fn split_fields(input: &str) -> (r: Vec<String>)
    ensures
        r@.map_values(|f: String| f@) == fields(input@),
{
    let chars = chars_of(input);
    let mut out: Vec<String> = Vec::new();
    let mut start: usize = 0;
    let mut i: usize = 0;
    assert(chars@.take(0) =~= Seq::<char>::empty());
    assert(out@.map_values(|f: String| f@) =~= split_on(chars@.take(0), ',').drop_last().map_values(
        |f: Seq<char>| trim(f),
    ));
    while i < chars.len()
        invariant
            start <= i <= chars.len(),
            chars@ == input@,
            split_on(chars@.take(i as int), ',').len() >= 1,
            out@.map_values(|f: String| f@) == split_on(chars@.take(i as int), ',').drop_last().map_values(
                |f: Seq<char>| trim(f),
            ),
            split_on(chars@.take(i as int), ',').last() == chars@.subrange(start as int, i as int),
        decreases chars.len() - i,
    {
        let ghost pieces = split_on(chars@.take(i as int), ',');
        let ghost next = chars@.take(i as int + 1);
        assert(next.drop_last() =~= chars@.take(i as int));
        assert(next.last() == chars@[i as int]);
        if chars[i] == ',' {
            let field = trimmed(&chars, start, i);
            let ghost before = out@;
            out.push(field);
            assert(split_on(next, ',') == pieces.push(Seq::empty()));
            assert(pieces.push(Seq::empty()).drop_last() =~= pieces);
            assert(pieces =~= pieces.drop_last().push(pieces.last()));
            assert(out@.map_values(|f: String| f@) =~= before.map_values(|f: String| f@).push(
                trim(pieces.last()),
            ));
            assert(out@.map_values(|f: String| f@) =~= pieces.map_values(|f: Seq<char>| trim(f)));
            start = i + 1;
            assert(chars@.subrange(start as int, start as int) =~= Seq::<char>::empty());
        } else {
            let ghost updated = pieces.update(pieces.len() - 1, pieces.last().push(chars@[i as int]));
            assert(split_on(next, ',') == updated);
            assert(updated.drop_last() =~= pieces.drop_last());
            assert(updated.last() =~= chars@.subrange(start as int, i as int + 1));
        }
        i = i + 1;
    }
    assert(chars@.take(chars.len() as int) =~= chars@);
    let ghost pieces = split_on(chars@, ',');
    let field = trimmed(&chars, start, chars.len());
    let ghost before = out@;
    out.push(field);
    assert(pieces =~= pieces.drop_last().push(pieces.last()));
    assert(out@.map_values(|f: String| f@) =~= before.map_values(|f: String| f@).push(
        trim(pieces.last()),
    ));
    assert(out@.map_values(|f: String| f@) =~= pieces.map_values(|f: Seq<char>| trim(f)));
    out
}

/// `parts` joined into one text with `sep` between each two neighbours.
pub fn join_fields(parts: &Vec<String>, sep: &str) -> (r: String)
    ensures
        r@ == join(parts@.map_values(|p: String| p@), sep@),
{
    let ghost views = parts@.map_values(|p: String| p@);
    let mut out = String::new();
    let mut i: usize = 0;
    while i < parts.len()
        invariant
            i <= parts.len(),
            views == parts@.map_values(|p: String| p@),
            out@ == join(views.take(i as int), sep@),
        decreases parts.len() - i,
    {
        assert(views.take(i as int + 1).drop_last() =~= views.take(i as int));
        assert(views.take(i as int + 1).last() == parts@[i as int]@);
        if i > 0 {
            out.append(sep);
        } else {
            assert(out@ =~= Seq::<char>::empty());
        }
        out.append(parts[i].as_str());
        i = i + 1;
    }
    assert(views.take(parts.len() as int) =~= views);
    out
}

} // verus!
