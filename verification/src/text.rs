//! Texts as sequences of characters: the last segment of a path, splitting
//! and joining on a separator, and decimal numerals.
use vstd::prelude::*;

verus! {

/// The character that separates the segments of a path.
pub const SLASH: char = '/';

/// The views of a list of strings, in order.
pub open spec fn texts(v: Seq<String>) -> Seq<Seq<char>> {
    Seq::new(v.len(), |i: int| v[i]@)
}

/// Where the last segment of `path` begins: just behind the last `/`, or at
/// 0 if there is none.
pub open spec fn basename_start(path: Seq<char>) -> int
    decreases path.len(),
{
    if path.len() == 0 {
        0
    } else if path.last() == SLASH {
        path.len() as int
    } else {
        basename_start(path.drop_last())
    }
}

/// The last `/`-delimited segment of `path`. It is empty when the path ends
/// in `/`, and the whole path when the path holds no `/`.
pub open spec fn basename(path: Seq<char>) -> Seq<char> {
    path.skip(basename_start(path))
}

/// The pieces of `text` between occurrences of `sep`, in order. There is
/// always one piece more than there are separators, so the empty text has
/// one empty piece.
pub open spec fn split(text: Seq<char>, sep: char) -> Seq<Seq<char>>
    decreases text.len(),
{
    if text.len() == 0 {
        seq![Seq::<char>::empty()]
    } else {
        let before = split(text.drop_last(), sep);
        if text.last() == sep {
            before.push(Seq::<char>::empty())
        } else {
            before.drop_last().push(before.last().push(text.last()))
        }
    }
}

/// The texts of `parts` in order, with `sep` between each two neighbours.
pub open spec fn join(parts: Seq<Seq<char>>, sep: Seq<char>) -> Seq<char>
    decreases parts.len(),
{
    if parts.len() == 0 {
        Seq::<char>::empty()
    } else if parts.len() == 1 {
        parts[0]
    } else {
        join(parts.drop_last(), sep) + sep + parts.last()
    }
}

/// The numeral for a value below ten.
pub open spec fn digit(d: nat) -> char
    recommends
        d < 10,
{
    if d == 0 {
        '0'
    } else if d == 1 {
        '1'
    } else if d == 2 {
        '2'
    } else if d == 3 {
        '3'
    } else if d == 4 {
        '4'
    } else if d == 5 {
        '5'
    } else if d == 6 {
        '6'
    } else if d == 7 {
        '7'
    } else if d == 8 {
        '8'
    } else {
        '9'
    }
}

/// `n` written in base ten, most significant digit first, without leading
/// zeros.
pub open spec fn decimal(n: nat) -> Seq<char>
    decreases n,
{
    if n < 10 {
        seq![digit(n)]
    } else {
        decimal(n / 10).push(digit(n % 10))
    }
}

/// The number that a base-ten numeral stands for.
pub open spec fn decimal_value(numeral: Seq<char>) -> nat
    decreases numeral.len(),
{
    if numeral.len() == 0 {
        0
    } else {
        10 * decimal_value(numeral.drop_last()) + digit_value(numeral.last())
    }
}

/// The value of one numeral character; 0 for any other character.
pub open spec fn digit_value(c: char) -> nat {
    if c == '1' {
        1
    } else if c == '2' {
        2
    } else if c == '3' {
        3
    } else if c == '4' {
        4
    } else if c == '5' {
        5
    } else if c == '6' {
        6
    } else if c == '7' {
        7
    } else if c == '8' {
        8
    } else if c == '9' {
        9
    } else {
        0
    }
}

/// The last segment begins inside the path.
pub proof fn lemma_basename_start_in_bounds(path: Seq<char>)
    ensures
        0 <= basename_start(path) <= path.len(),
    decreases path.len(),
{
    if path.len() > 0 && path.last() != SLASH {
        lemma_basename_start_in_bounds(path.drop_last());
    }
}

/// The last segment holds no `/`, it is the end of the path, and what stands
/// before it is empty or ends in `/`.
pub proof fn lemma_basename_is_last_segment(path: Seq<char>)
    ensures
        !basename(path).contains(SLASH),
        path == path.take(basename_start(path)) + basename(path),
        basename_start(path) > 0 ==> path[basename_start(path) - 1] == SLASH,
    decreases path.len(),
{
    lemma_basename_start_in_bounds(path);
    let start: int = basename_start(path);
    assert(path =~= path.take(start) + path.skip(start));
    if path.len() > 0 && path.last() != SLASH {
        let shorter = path.drop_last();
        lemma_basename_is_last_segment(shorter);
        lemma_basename_start_in_bounds(shorter);
        assert(basename(path) =~= basename(shorter).push(path.last()));
        if basename(path).contains(SLASH) {
            let i = choose|i: int| 0 <= i < basename(path).len() && basename(path)[i] == SLASH;
            assert(basename(shorter)[i] == SLASH);
        }
    } else {
        assert(basename(path) =~= Seq::<char>::empty());
    }
}

/// A path that ends in `/` followed by a name without `/` has that name as
/// its last segment.
pub proof fn lemma_basename_of_dir_and_name(dir: Seq<char>, name: Seq<char>)
    requires
        !name.contains(SLASH),
    ensures
        basename(dir + seq![SLASH] + name) == name,
        basename(name) == name,
    decreases name.len(),
{
    let path = dir + seq![SLASH] + name;
    if name.len() == 0 {
        assert(path.last() == SLASH);
        assert(basename(path) =~= name);
        assert(basename(name) =~= name);
    } else {
        let shorter = name.drop_last();
        assert(name[name.len() - 1] == name.last());
        assert(name.last() != SLASH);
        assert forall|i: int| 0 <= i < shorter.len() implies shorter[i] != SLASH by {
            assert(name[i] == shorter[i]);
        }
        lemma_basename_of_dir_and_name(dir, shorter);
        assert(path.drop_last() =~= dir + seq![SLASH] + shorter);
        assert(path.last() == name.last());
        lemma_basename_start_in_bounds(path.drop_last());
        lemma_basename_start_in_bounds(shorter);
        assert(basename(path) =~= basename(path.drop_last()).push(name.last()));
        assert(basename(name) =~= basename(shorter).push(name.last()));
        assert(shorter.push(name.last()) =~= name);
    }
}

/// Splitting yields at least one piece, and no piece holds the separator.
pub proof fn lemma_split_pieces(text: Seq<char>, sep: char)
    ensures
        split(text, sep).len() >= 1,
        forall|i: int|
            0 <= i < split(text, sep).len() ==> !(#[trigger] split(text, sep)[i]).contains(sep),
    decreases text.len(),
{
    if text.len() > 0 {
        let before = split(text.drop_last(), sep);
        lemma_split_pieces(text.drop_last(), sep);
        let pieces = split(text, sep);
        assert forall|i: int| 0 <= i < pieces.len() implies !(#[trigger] pieces[i]).contains(
            sep,
        ) by {
            if i < before.len() - 1 {
                assert(pieces[i] == before[i]);
            } else if text.last() == sep {
                if i == before.len() - 1 {
                    assert(pieces[i] == before[i]);
                }
            } else {
                let grown = before.last().push(text.last());
                assert(pieces[i] == grown);
                if grown.contains(sep) {
                    let j = choose|j: int| 0 <= j < grown.len() && grown[j] == sep;
                    assert(before.last()[j] == sep);
                }
            }
        }
    }
}

/// Joining the pieces of a split with the separator gives the text back.
pub proof fn lemma_join_of_split(text: Seq<char>, sep: char)
    ensures
        join(split(text, sep), seq![sep]) == text,
    decreases text.len(),
{
    if text.len() == 0 {
        assert(join(split(text, sep), seq![sep]) =~= text);
    } else {
        let shorter = text.drop_last();
        let before = split(shorter, sep);
        lemma_split_pieces(shorter, sep);
        lemma_join_of_split(shorter, sep);
        let pieces = split(text, sep);
        if text.last() == sep {
            assert(pieces.drop_last() =~= before);
            assert(join(pieces, seq![sep]) =~= shorter + seq![sep] + Seq::<char>::empty());
            assert(join(pieces, seq![sep]) =~= text);
        } else {
            let grown = before.last().push(text.last());
            assert(pieces.drop_last() =~= before.drop_last());
            assert(pieces.last() == grown);
            if before.len() == 1 {
                assert(join(before, seq![sep]) == before[0]);
                assert(join(pieces, seq![sep]) =~= text);
            } else {
                assert(join(before, seq![sep]) == join(before.drop_last(), seq![sep]) + seq![sep]
                    + before.last());
                assert(join(pieces, seq![sep]) =~= join(before, seq![sep]).push(text.last()));
                assert(join(pieces, seq![sep]) =~= text);
            }
        }
    }
}

/// A text without the separator is its own single piece.
pub proof fn lemma_split_without_separator(text: Seq<char>, sep: char)
    requires
        !text.contains(sep),
    ensures
        split(text, sep) == seq![text],
    decreases text.len(),
{
    if text.len() == 0 {
        assert(text =~= Seq::<char>::empty());
    } else {
        let shorter = text.drop_last();
        assert(text[text.len() - 1] != sep);
        assert forall|i: int| 0 <= i < shorter.len() implies shorter[i] != sep by {
            assert(text[i] == shorter[i]);
        }
        lemma_split_without_separator(shorter, sep);
        let before = split(shorter, sep);
        assert(before.drop_last() =~= Seq::<Seq<char>>::empty());
        assert(before.last().push(text.last()) =~= text);
        assert(split(text, sep) =~= seq![text]);
    }
}

/// The pieces of two texts set side by side with one separator between them
/// are the pieces of the first followed by the pieces of the second.
pub proof fn lemma_split_of_joined(left: Seq<char>, right: Seq<char>, sep: char)
    ensures
        split(left + seq![sep] + right, sep) == split(left, sep) + split(right, sep),
    decreases right.len(),
{
    let whole = left + seq![sep] + right;
    lemma_split_pieces(left, sep);
    if right.len() == 0 {
        assert(whole.drop_last() =~= left);
        assert(split(whole, sep) =~= split(left, sep) + split(right, sep));
    } else {
        let shorter = right.drop_last();
        lemma_split_of_joined(left, shorter, sep);
        lemma_split_pieces(shorter, sep);
        assert(whole.drop_last() =~= left + seq![sep] + shorter);
        assert(whole.last() == right.last());
        assert(split(whole, sep) =~= split(left, sep) + split(right, sep));
    }
}

/// Joining one more part: the first part stands alone, each later one
/// behind a separator.
pub proof fn lemma_join_push(parts: Seq<Seq<char>>, last: Seq<char>, sep: Seq<char>)
    ensures
        join(parts.push(last), sep) == if parts.len() == 0 {
            last
        } else {
            join(parts, sep) + sep + last
        },
{
    assert(parts.push(last).drop_last() =~= parts);
}

/// A joined text is at least as long as each of its parts.
pub proof fn lemma_join_covers_parts(parts: Seq<Seq<char>>, sep: Seq<char>, i: int)
    requires
        0 <= i < parts.len(),
    ensures
        join(parts, sep).len() >= parts[i].len(),
    decreases parts.len(),
{
    if parts.len() > 1 {
        if i < parts.len() - 1 {
            lemma_join_covers_parts(parts.drop_last(), sep, i);
        }
    }
}

/// A decimal numeral is never empty, holds only the characters `0` to `9`,
/// begins with `0` only for zero, and stands for the number it was made
/// from.
pub proof fn lemma_decimal_is_numeral(n: nat)
    ensures
        decimal(n).len() >= 1,
        forall|i: int| 0 <= i < decimal(n).len() ==> '0' <= #[trigger] decimal(n)[i] <= '9',
        decimal(n)[0] == '0' <==> n == 0,
        decimal_value(decimal(n)) == n,
    decreases n,
{
    if n < 10 {
        assert(decimal(n).drop_last() =~= Seq::<char>::empty());
        assert(decimal_value(decimal(n).drop_last()) == 0);
    } else {
        lemma_decimal_is_numeral(n / 10);
        assert(decimal(n).drop_last() =~= decimal(n / 10));
        assert(decimal(n)[0] == decimal(n / 10)[0]);
        assert forall|i: int| 0 <= i < decimal(n).len() implies '0' <= #[trigger] decimal(n)[i]
            <= '9' by {
            if i < decimal(n / 10).len() {
                assert(decimal(n)[i] == decimal(n / 10)[i]);
            }
        }
    }
}

/// The characters of a string slice, in order.
pub fn chars_of(s: &str) -> (out: Vec<char>)
    ensures
        out@ == s@,
{
    let mut out: Vec<char> = Vec::new();
    let chars = s.chars();
    for c in it: chars
        invariant
            out@ == it.seq().take(it.index()),
    {
        out.push(c);
    }
    out
}

/// The string made of the characters from position `from` to the end.
pub(crate) fn string_from(chars: &Vec<char>, from: usize) -> (out: String)
    requires
        from <= chars.len(),
    ensures
        out@ == chars@.skip(from as int),
{
    let mut out = String::new();
    let mut i: usize = from;
    while i < chars.len()
        invariant
            from <= i <= chars.len(),
            out@ == chars@.subrange(from as int, i as int),
        decreases chars.len() - i,
    {
        out.push(chars[i]);
        i = i + 1;
    }
    out
}

/// The last `/`-delimited segment of the path that `chars` holds from
/// position `from` on.
pub(crate) fn basename_from(chars: &Vec<char>, from: usize) -> (name: String)
    requires
        from <= chars.len(),
    ensures
        name@ == basename(chars@.skip(from as int)),
{
    let ghost path = chars@.skip(from as int);
    let mut i: usize = chars.len();
    proof {
        assert(path.take(i - from) =~= path);
    }
    while i > from && chars[i - 1] != SLASH
        invariant
            from <= i <= chars.len(),
            path == chars@.skip(from as int),
            basename_start(path) == basename_start(path.take(i - from)),
        decreases i,
    {
        proof {
            assert(path.take(i - from).last() == chars@[i - 1]);
            assert(path.take(i - from).drop_last() =~= path.take(i - 1 - from));
        }
        i = i - 1;
    }
    proof {
        if i > from {
            assert(path.take(i - from).last() == chars@[i - 1]);
        }
        assert(chars@.skip(i as int) =~= path.skip(i - from));
    }
    string_from(chars, i)
}

/// The last `/`-delimited segment of `path`.
pub fn basename_of(path: &str) -> (name: String)
    ensures
        name@ == basename(path@),
{
    let chars = chars_of(path);
    proof {
        assert(chars@.skip(0) =~= chars@);
    }
    basename_from(&chars, 0)
}

/// Splits `text` at every occurrence of `sep`.
pub fn split_text(text: &str, sep: char) -> (pieces: Vec<String>)
    ensures
        texts(pieces@) == split(text@, sep),
{
    let mut pieces: Vec<String> = Vec::new();
    let mut current = String::new();
    let chars = text.chars();
    let ghost mut seen = Seq::<char>::empty();
    proof {
        assert(texts(pieces@).push(current@) =~= split(seen, sep));
    }
    for c in it: chars
        invariant
            seen == it.seq().take(it.index()),
            texts(pieces@).push(current@) == split(seen, sep),
    {
        let ghost shorter = seen;
        proof {
            seen = seen.push(c);
            assert(seen =~= it.seq().take(it.index() + 1));
            assert(seen.drop_last() =~= shorter);
        }
        if c == sep {
            let ghost before = pieces@;
            pieces.push(current);
            current = String::new();
            proof {
                assert(texts(pieces@) =~= texts(before).push(pieces@.last()@));
            }
        } else {
            let ghost old_current = current@;
            current.push(c);
            proof {
                assert(texts(pieces@).push(old_current).drop_last() =~= texts(pieces@));
            }
        }
    }
    let ghost before = pieces@;
    pieces.push(current);
    proof {
        assert(seen =~= text@);
        assert(texts(pieces@) =~= texts(before).push(pieces@.last()@));
    }
    pieces
}

/// The numeral for a value below ten.
pub(crate) fn digit_of(d: usize) -> (c: char)
    requires
        d < 10,
    ensures
        c == digit(d as nat),
{
    if d == 0 {
        '0'
    } else if d == 1 {
        '1'
    } else if d == 2 {
        '2'
    } else if d == 3 {
        '3'
    } else if d == 4 {
        '4'
    } else if d == 5 {
        '5'
    } else if d == 6 {
        '6'
    } else if d == 7 {
        '7'
    } else if d == 8 {
        '8'
    } else {
        '9'
    }
}

/// Appends the base-ten numeral of `n` to `out`.
pub fn push_decimal(out: &mut String, n: usize)
    ensures
        final(out)@ == old(out)@ + decimal(n as nat),
    decreases n,
{
    if n >= 10 {
        push_decimal(out, n / 10);
    }
    out.push(digit_of(n % 10));
    proof {
        assert(final(out)@ =~= old(out)@ + decimal(n as nat));
    }
}

} // verus!
