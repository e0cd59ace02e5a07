//! Character-level text primitives: splitting into lines, padding, alignment.
//!
//! All executable text processing works on `Vec<char>`, modelled by
//! `Seq<char>`; `String` appears only at the library's boundary.

use vstd::prelude::*;
use crate::style::Alignment;

verus! {

/// Relies on `str::chars` and `Iterator::collect`: yields the string's
/// characters in order.
#[verifier::external_body]
pub fn string_to_chars(s: &str) -> (r: Vec<char>)
    ensures
        r@ == s@,
{
    s.chars().collect()
}

/// Relies on `FromIterator<char> for String`: concatenates the characters in
/// order.
#[verifier::external_body]
pub fn chars_to_string(v: &Vec<char>) -> (r: String)
    ensures
        r@ == v@,
{
    v.iter().collect()
}

/// `n` copies of the character `c`.
pub open spec fn repeat_char(c: char, n: nat) -> Seq<char> {
    Seq::new(n, |i: int| c)
}

/// `n` spaces.
pub open spec fn spaces(n: nat) -> Seq<char> {
    repeat_char(' ', n)
}

/// The view of an optional glyph: one character, or nothing.
pub open spec fn opt_glyph(g: Option<char>) -> Seq<char> {
    match g {
        Some(c) => seq![c],
        None => Seq::empty(),
    }
}

/// The sequences viewed by a sequence of character vectors.
pub open spec fn deep_chars(v: Seq<Vec<char>>) -> Seq<Seq<char>> {
    v.map_values(|x: Vec<char>| x@)
}

/// Splits `s` at every occurrence of `c`; the result always has one more
/// piece than `s` has occurrences of `c`.
pub open spec fn split_on(s: Seq<char>, c: char) -> Seq<Seq<char>>
    decreases s.len(),
{
    if s.len() == 0 {
        seq![Seq::<char>::empty()]
    } else if s[0] == c {
        seq![Seq::<char>::empty()] + split_on(s.skip(1), c)
    } else {
        let rest = split_on(s.skip(1), c);
        seq![seq![s[0]] + rest[0]] + rest.skip(1)
    }
}

proof fn lemma_split_on_len(s: Seq<char>, c: char)
    ensures
        split_on(s, c).len() >= 1,
    decreases s.len(),
{
    if s.len() != 0 {
        lemma_split_on_len(s.skip(1), c);
    }
}

/// The lines of `s`: pieces between `'\n'` characters, a final line
/// terminator producing no extra empty line.  The empty string has no lines.
pub open spec fn spec_lines(s: Seq<char>) -> Seq<Seq<char>> {
    if s.len() == 0 {
        Seq::empty()
    } else if s[s.len() - 1] == '\n' {
        split_on(s.take(s.len() - 1), '\n')
    } else {
        split_on(s, '\n')
    }
}

/// `s` padded with spaces to `width`; text longer than `width` is kept whole.
/// Centering puts the odd space on the right.
pub open spec fn spec_align(s: Seq<char>, width: nat, a: Alignment) -> Seq<char> {
    if s.len() >= width {
        s
    } else {
        let pad = (width - s.len()) as nat;
        match a {
            Alignment::Left => s + spaces(pad),
            Alignment::Right => spaces(pad) + s,
            Alignment::Center => spaces(pad / 2) + s + spaces((pad - pad / 2) as nat),
        }
    }
}

/// Appends all of `src` to `dst`.
pub fn append_chars(dst: &mut Vec<char>, src: &Vec<char>)
    ensures
        final(dst)@ == old(dst)@ + src@,
{
    let mut i: usize = 0;
    while i < src.len()
        invariant
            i <= src.len(),
            dst@ == old(dst)@ + src@.take(i as int),
        decreases src.len() - i,
    {
        dst.push(src[i]);
        i = i + 1;
        proof {
            assert(old(dst)@ + src@.take(i as int)
                =~= (old(dst)@ + src@.take(i - 1)).push(src@[i - 1]));
        }
    }
    proof {
        assert(src@.take(src@.len() as int) =~= src@);
    }
}

/// Appends `n` copies of `c` to `dst`.
pub fn push_repeat(dst: &mut Vec<char>, c: char, n: usize)
    ensures
        final(dst)@ == old(dst)@ + repeat_char(c, n as nat),
{
    let mut i: usize = 0;
    while i < n
        invariant
            i <= n,
            dst@ == old(dst)@ + repeat_char(c, i as nat),
        decreases n - i,
    {
        dst.push(c);
        i = i + 1;
        proof {
            assert(old(dst)@ + repeat_char(c, i as nat)
                =~= (old(dst)@ + repeat_char(c, (i - 1) as nat)).push(c));
        }
    }
}

/// Appends the glyph, if there is one.
pub fn push_opt(dst: &mut Vec<char>, g: Option<char>)
    ensures
        final(dst)@ == old(dst)@ + opt_glyph(g),
{
    match g {
        Some(c) => {
            dst.push(c);
            proof {
                assert(dst@ =~= old(dst)@ + opt_glyph(g));
            }
        },
        None => {
            proof {
                assert(dst@ =~= old(dst)@ + opt_glyph(g));
            }
        },
    }
}

/// The characters of `v` from `a` (inclusive) to `b` (exclusive).
pub fn subrange_chars(v: &Vec<char>, a: usize, b: usize) -> (r: Vec<char>)
    requires
        a <= b <= v.len(),
    ensures
        r@ == v@.subrange(a as int, b as int),
{
    let mut r: Vec<char> = Vec::new();
    let mut i: usize = a;
    while i < b
        invariant
            a <= i <= b <= v.len(),
            r@ == v@.subrange(a as int, i as int),
        decreases b - i,
    {
        r.push(v[i]);
        i = i + 1;
        proof {
            assert(v@.subrange(a as int, i as int)
                =~= v@.subrange(a as int, i - 1).push(v@[i - 1]));
        }
    }
    r
}

/// `s` aligned to `width` as [`spec_align`] describes.
pub fn align_chars(s: &Vec<char>, width: usize, a: Alignment) -> (r: Vec<char>)
    ensures
        r@ == spec_align(s@, width as nat, a),
{
    let mut r: Vec<char> = Vec::new();
    if s.len() >= width {
        append_chars(&mut r, s);
        proof {
            assert(r@ =~= s@);
        }
    } else {
        let pad = width - s.len();
        match a {
            Alignment::Left => {
                append_chars(&mut r, s);
                push_repeat(&mut r, ' ', pad);
            },
            Alignment::Right => {
                push_repeat(&mut r, ' ', pad);
                append_chars(&mut r, s);
            },
            Alignment::Center => {
                push_repeat(&mut r, ' ', pad / 2);
                append_chars(&mut r, s);
                push_repeat(&mut r, ' ', pad - pad / 2);
            },
        }
    }
    r
}

/// The pieces of `v` from `from` on, split at `c`, as [`split_on`] describes.
fn split_chars_from(v: &Vec<char>, from: usize, c: char) -> (r: Vec<Vec<char>>)
    requires
        from <= v.len(),
    ensures
        deep_chars(r@) == split_on(v@.skip(from as int), c),
    decreases v.len() - from,
{
    let ghost s = v@.skip(from as int);
    if from == v.len() {
        let mut r: Vec<Vec<char>> = Vec::new();
        r.push(Vec::new());
        proof {
            assert(s =~= Seq::<char>::empty());
            assert(deep_chars(r@) =~= split_on(s, c));
        }
        r
    } else {
        let ch = v[from];
        let mut rest = split_chars_from(v, from + 1, c);
        proof {
            assert(s.skip(1) =~= v@.skip(from as int + 1));
            lemma_split_on_len(v@.skip(from as int + 1), c);
            assert(rest@.len() >= 1);
        }
        if ch == c {
            rest.insert(0, Vec::new());
            proof {
                assert(deep_chars(rest@) =~~= split_on(s, c));
            }
            rest
        } else {
            let mut first = rest.remove(0);
            first.insert(0, ch);
            rest.insert(0, first);
            proof {
                assert(s[0] == ch);
                assert(deep_chars(rest@) =~~= split_on(s, c));
            }
            rest
        }
    }
}

/// The lines of `v`, as [`spec_lines`] describes.
pub fn lines_chars(v: &Vec<char>) -> (r: Vec<Vec<char>>)
    ensures
        deep_chars(r@) == spec_lines(v@),
{
    if v.len() == 0 {
        let r: Vec<Vec<char>> = Vec::new();
        proof {
            assert(deep_chars(r@) =~= spec_lines(v@));
        }
        r
    } else if v[v.len() - 1] == '\n' {
        let mut head: Vec<char> = Vec::new();
        let mut i: usize = 0;
        while i < v.len() - 1
            invariant
                v@.len() >= 1,
                i <= v@.len() - 1,
                head@ == v@.take(v@.len() - 1).take(i as int),
            decreases v.len() - 1 - i,
        {
            head.push(v[i]);
            i = i + 1;
            proof {
                assert(v@.take(v@.len() - 1).take(i as int)
                    =~= v@.take(v@.len() - 1).take(i - 1).push(v@[i - 1]));
            }
        }
        proof {
            assert(head@ =~= v@.take(v@.len() - 1));
        }
        let r = split_chars_from(&head, 0, '\n');
        proof {
            assert(head@.skip(0) =~= head@);
        }
        r
    } else {
        let r = split_chars_from(v, 0, '\n');
        proof {
            assert(v@.skip(0) =~= v@);
        }
        r
    }
}

/// The sequences viewed by a vector of strings.
pub open spec fn deep_strings(v: Seq<String>) -> Seq<Seq<char>> {
    v.map_values(|x: String| x@)
}

/// The lines of `s`, split at `'\n'`; a final line terminator produces no
/// extra empty line, and the empty string has no lines.
pub fn lines_of(s: &str) -> (r: Vec<String>)
    ensures
        deep_strings(r@) == spec_lines(s@),
{
    let chars = string_to_chars(s);
    let pieces = lines_chars(&chars);
    let mut r: Vec<String> = Vec::new();
    let mut i: usize = 0;
    while i < pieces.len()
        invariant
            i <= pieces.len(),
            deep_strings(r@) == deep_chars(pieces@).take(i as int),
        decreases pieces.len() - i,
    {
        let ghost r_prev = r@;
        r.push(chars_to_string(&pieces[i]));
        i = i + 1;
        proof {
            assert(deep_chars(pieces@).take(i as int)
                =~= deep_chars(pieces@).take(i - 1).push(pieces@[i - 1]@));
            assert(deep_strings(r@) =~= deep_strings(r_prev).push(r@[r@.len() - 1]@));
        }
    }
    proof {
        assert(deep_chars(pieces@).take(pieces@.len() as int) =~= deep_chars(pieces@));
    }
    r
}

} // verus!
