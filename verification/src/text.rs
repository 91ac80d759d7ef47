//! Text handling over sequences of characters: whitespace, words, lines, prefixes.

use vstd::prelude::*;

verus! {

/// Characters with the Unicode `White_Space` property.
pub open spec fn space(c: char) -> bool {
    let n = c as u32;
    ||| 0x9 <= n <= 0xd
    ||| n == 0x20
    ||| n == 0x85
    ||| n == 0xa0
    ||| n == 0x1680
    ||| 0x2000 <= n <= 0x200a
    ||| n == 0x2028
    ||| n == 0x2029
    ||| n == 0x202f
    ||| n == 0x205f
    ||| n == 0x3000
}

/// Whether `c` is whitespace.
pub fn is_space(c: char) -> (r: bool)
    ensures
        r == space(c),
{
    let n: u32 = c as u32;
    (0x9 <= n && n <= 0xd) || n == 0x20 || n == 0x85 || n == 0xa0 || n == 0x1680 || (0x2000 <= n
        && n <= 0x200a) || n == 0x2028 || n == 0x2029 || n == 0x202f || n == 0x205f || n == 0x3000
}

/// No character of `s` is whitespace.
pub open spec fn spaceless(s: Seq<char>) -> bool {
    forall|i: int| 0 <= i < s.len() ==> !space(#[trigger] s[i])
}

/// The number of whitespace characters that `s` starts with.
pub open spec fn leading_spaces(s: Seq<char>) -> nat
    decreases s.len(),
{
    if s.len() > 0 && space(s[0]) {
        1 + leading_spaces(s.skip(1))
    } else {
        0
    }
}

/// The number of non-whitespace characters that `s` starts with.
pub open spec fn leading_word(s: Seq<char>) -> nat
    decreases s.len(),
{
    if s.len() > 0 && !space(s[0]) {
        1 + leading_word(s.skip(1))
    } else {
        0
    }
}

/// The position of the first `c` in `s`, or the length of `s` where there is none.
pub open spec fn position(s: Seq<char>, c: char) -> nat
    decreases s.len(),
{
    if s.len() > 0 && s[0] != c {
        1 + position(s.skip(1), c)
    } else {
        0
    }
}

/// `leading_spaces` counts exactly the longest whitespace prefix.
pub proof fn lemma_leading_spaces(s: Seq<char>)
    ensures
        leading_spaces(s) <= s.len(),
        forall|i: int| 0 <= i < leading_spaces(s) ==> space(#[trigger] s[i]),
        leading_spaces(s) < s.len() ==> !space(s[leading_spaces(s) as int]),
    decreases s.len(),
{
    if s.len() > 0 && space(s[0]) {
        let t = s.skip(1);
        lemma_leading_spaces(t);
        assert forall|i: int| 0 <= i < leading_spaces(s) implies space(#[trigger] s[i]) by {
            if i > 0 {
                assert(s[i] == t[i - 1]);
            }
        }
    }
}

/// `leading_word` counts exactly the longest prefix without whitespace.
pub proof fn lemma_leading_word(s: Seq<char>)
    ensures
        leading_word(s) <= s.len(),
        forall|i: int| 0 <= i < leading_word(s) ==> !space(#[trigger] s[i]),
        leading_word(s) < s.len() ==> space(s[leading_word(s) as int]),
    decreases s.len(),
{
    if s.len() > 0 && !space(s[0]) {
        let t = s.skip(1);
        lemma_leading_word(t);
        assert forall|i: int| 0 <= i < leading_word(s) implies !space(#[trigger] s[i]) by {
            if i > 0 {
                assert(s[i] == t[i - 1]);
            }
        }
    }
}

/// `position` is the first place where `c` stands.
pub proof fn lemma_position(s: Seq<char>, c: char)
    ensures
        position(s, c) <= s.len(),
        forall|i: int| 0 <= i < position(s, c) ==> #[trigger] s[i] != c,
        position(s, c) < s.len() ==> s[position(s, c) as int] == c,
    decreases s.len(),
{
    if s.len() > 0 && s[0] != c {
        let t = s.skip(1);
        lemma_position(t, c);
        assert forall|i: int| 0 <= i < position(s, c) implies #[trigger] s[i] != c by {
            if i > 0 {
                assert(s[i] == t[i - 1]);
            }
        }
    }
}

/// Counts the leading whitespace of `s`.
fn count_spaces(s: &[char]) -> (n: usize)
    ensures
        n == leading_spaces(s@),
{
    let mut n: usize = 0;
    proof {
        lemma_leading_spaces(s@);
    }
    while n < s.len() && is_space(s[n])
        invariant
            n <= s@.len(),
            n <= leading_spaces(s@),
            leading_spaces(s@) < s@.len() ==> !space(s@[leading_spaces(s@) as int]),
        decreases s@.len() - n,
    {
        n = n + 1;
    }
    n
}

/// Counts the characters of `s` before its first whitespace.
fn count_word(s: &[char]) -> (n: usize)
    ensures
        n == leading_word(s@),
{
    let mut n: usize = 0;
    proof {
        lemma_leading_word(s@);
    }
    while n < s.len() && !is_space(s[n])
        invariant
            n <= s@.len(),
            n <= leading_word(s@),
            leading_word(s@) < s@.len() ==> space(s@[leading_word(s@) as int]),
        decreases s@.len() - n,
    {
        n = n + 1;
    }
    n
}

/// Finds the first `c` in `s`; the length of `s` where there is none.
pub fn find(s: &[char], c: char) -> (n: usize)
    ensures
        n == position(s@, c),
        n <= s@.len(),
{
    let mut n: usize = 0;
    proof {
        lemma_position(s@, c);
    }
    while n < s.len() && s[n] != c
        invariant
            n <= s@.len(),
            n <= position(s@, c) <= s@.len(),
            position(s@, c) < s@.len() ==> s@[position(s@, c) as int] == c,
        decreases s@.len() - n,
    {
        n = n + 1;
    }
    n
}

/// The words of `s`: its maximal runs of non-whitespace characters, in order.
pub open spec fn words(s: Seq<char>) -> Seq<Seq<char>>
    decreases s.len(),
{
    let t = s.skip(leading_spaces(s) as int);
    if t.len() == 0 {
        Seq::empty()
    } else {
        proof {
            lemma_leading_spaces(s);
            lemma_leading_word(t);
        }
        seq![t.take(leading_word(t) as int)] + words(t.skip(leading_word(t) as int))
    }
}

/// `s` without one carriage return at its end.
pub open spec fn without_cr(s: Seq<char>) -> Seq<char> {
    if s.len() > 0 && s.last() == '\r' {
        s.drop_last()
    } else {
        s
    }
}

/// The lines of `s`: what stands before each line feed, less a carriage return right before
/// it, and what follows the last line feed where that is not empty.
pub open spec fn lines(s: Seq<char>) -> Seq<Seq<char>>
    decreases s.len(),
{
    let n = position(s, '\n') as int;
    if s.len() == 0 {
        Seq::empty()
    } else if n >= s.len() {
        seq![s]
    } else {
        seq![without_cr(s.take(n))] + lines(s.skip(n + 1))
    }
}

/// What follows the whitespace that `s` starts with.
pub open spec fn trimmed_start(s: Seq<char>) -> Seq<char> {
    s.skip(leading_spaces(s) as int)
}

/// What precedes the whitespace that `s` ends with.
pub open spec fn trimmed_end(s: Seq<char>) -> Seq<char>
    decreases s.len(),
{
    if s.len() > 0 && space(s.last()) {
        trimmed_end(s.drop_last())
    } else {
        s
    }
}

/// `s` without the whitespace at its two ends.
pub open spec fn trimmed(s: Seq<char>) -> Seq<char> {
    trimmed_end(trimmed_start(s))
}

/// `s` without the run of `c` that it ends with.
pub open spec fn without_trailing(s: Seq<char>, c: char) -> Seq<char>
    decreases s.len(),
{
    if s.len() > 0 && s.last() == c {
        without_trailing(s.drop_last(), c)
    } else {
        s
    }
}

/// The parts of `s` before and after its first `c`.
pub open spec fn halves(s: Seq<char>, c: char) -> Option<(Seq<char>, Seq<char>)> {
    let n = position(s, c) as int;
    if n < s.len() {
        Some((s.take(n), s.skip(n + 1)))
    } else {
        None
    }
}

/// What stands in `s` before its first `c`; all of `s` where there is none.
pub open spec fn before(s: Seq<char>, c: char) -> Seq<char> {
    s.take(position(s, c) as int)
}

/// The pieces of `s` between the occurrences of `c`; at least one, which may be empty.
pub open spec fn pieces(s: Seq<char>, c: char) -> Seq<Seq<char>>
    decreases s.len(),
{
    let n = position(s, c) as int;
    if n >= s.len() {
        seq![s]
    } else {
        seq![s.take(n)] + pieces(s.skip(n + 1), c)
    }
}

/// What `s` holds after the prefix `p`, where it starts with it.
pub open spec fn after_prefix(s: Seq<char>, p: Seq<char>) -> Option<Seq<char>> {
    if p.is_prefix_of(s) {
        Some(s.skip(p.len() as int))
    } else {
        None
    }
}

/// The contents of slices, one by one.
pub open spec fn contents(v: Seq<&[char]>) -> Seq<Seq<char>> {
    v.map_values(|t: &[char]| t@)
}

/// The `i`-th of `v`, or the empty text.
pub open spec fn nth_or_empty(v: Seq<Seq<char>>, i: int) -> Seq<char> {
    if 0 <= i < v.len() {
        v[i]
    } else {
        Seq::empty()
    }
}

/// All of `v` but its first element.
pub open spec fn after_first(v: Seq<Seq<char>>) -> Seq<Seq<char>> {
    if v.len() == 0 {
        v
    } else {
        v.skip(1)
    }
}

/// The lines of a file that may be missing.
pub open spec fn lines_of(file: Option<Seq<char>>) -> Seq<Seq<char>> {
    match file {
        Some(s) => lines(s),
        None => Seq::empty(),
    }
}

/// Splits `s` into its words.
pub fn split_words<'a>(s: &'a [char]) -> (out: Vec<&'a [char]>)
    ensures
        contents(out@) == words(s@),
{
    let mut out: Vec<&'a [char]> = Vec::new();
    let mut rest: &'a [char] = s;
    proof {
        assert(contents(out@) =~= Seq::empty());
        assert(contents(out@) + words(rest@) =~= words(s@));
    }
    loop
        invariant
            words(s@) == contents(out@) + words(rest@),
        ensures
            contents(out@) == words(s@),
        decreases rest@.len(),
    {
        proof {
            lemma_leading_spaces(rest@);
        }
        let start = count_spaces(rest);
        let tail = vstd::slice::slice_subrange(rest, start, rest.len());
        assert(tail@ =~= rest@.skip(start as int));
        if tail.len() == 0 {
            assert(contents(out@) + words(rest@) =~= contents(out@));
            break;
        }
        proof {
            lemma_leading_word(tail@);
        }
        let n = count_word(tail);
        let word = vstd::slice::slice_subrange(tail, 0, n);
        let next = vstd::slice::slice_subrange(tail, n, tail.len());
        assert(word@ =~= tail@.take(n as int));
        assert(next@ =~= tail@.skip(n as int));
        let ghost before_push = out@;
        out.push(word);
        proof {
            assert(contents(out@) =~= contents(before_push) + seq![word@]);
            assert(words(rest@) == seq![word@] + words(next@));
            assert(contents(before_push) + (seq![word@] + words(next@)) =~= contents(out@) + words(
                next@,
            ));
        }
        rest = next;
    }
    out
}

/// Splits `s` into its lines.
pub fn split_lines<'a>(s: &'a [char]) -> (out: Vec<&'a [char]>)
    ensures
        contents(out@) == lines(s@),
{
    let mut out: Vec<&'a [char]> = Vec::new();
    let mut rest: &'a [char] = s;
    proof {
        assert(contents(out@) + lines(rest@) =~= lines(s@));
    }
    while rest.len() > 0
        invariant
            lines(s@) == contents(out@) + lines(rest@),
        decreases rest@.len(),
    {
        let n = find(rest, '\n');
        let ghost before_push = out@;
        if n == rest.len() {
            let next = vstd::slice::slice_subrange(rest, n, rest.len());
            out.push(rest);
            proof {
                assert(lines(next@) =~= Seq::empty());
                assert(contents(out@) =~= contents(before_push) + seq![rest@]);
                assert(contents(before_push) + seq![rest@] =~= contents(out@) + lines(next@));
            }
            rest = next;
        } else {
            let mut end = n;
            if n > 0 && rest[n - 1] == '\r' {
                end = n - 1;
            }
            let line = vstd::slice::slice_subrange(rest, 0, end);
            let next = vstd::slice::slice_subrange(rest, n + 1, rest.len());
            out.push(line);
            proof {
                assert(line@ =~= without_cr(rest@.take(n as int)));
                assert(next@ =~= rest@.skip(n + 1));
                assert(contents(out@) =~= contents(before_push) + seq![line@]);
                assert(contents(before_push) + (seq![line@] + lines(next@)) =~= contents(out@)
                    + lines(next@));
            }
            rest = next;
        }
    }
    assert(contents(out@) + lines(rest@) =~= contents(out@));
    out
}

/// Splits `s` at every `c`.
pub fn split_at_each<'a>(s: &'a [char], c: char) -> (out: Vec<&'a [char]>)
    ensures
        contents(out@) == pieces(s@, c),
{
    let mut out: Vec<&'a [char]> = Vec::new();
    let mut rest: &'a [char] = s;
    proof {
        assert(contents(out@) + pieces(rest@, c) =~= pieces(s@, c));
    }
    let mut n = find(rest, c);
    while n < rest.len()
        invariant
            n == position(rest@, c),
            n <= rest@.len(),
            pieces(s@, c) == contents(out@) + pieces(rest@, c),
        decreases rest@.len(),
    {
        let piece = vstd::slice::slice_subrange(rest, 0, n);
        let next = vstd::slice::slice_subrange(rest, n + 1, rest.len());
        let ghost before_push = out@;
        out.push(piece);
        proof {
            assert(piece@ =~= rest@.take(n as int));
            assert(next@ =~= rest@.skip(n + 1));
            assert(contents(out@) =~= contents(before_push) + seq![piece@]);
            assert(contents(before_push) + (seq![piece@] + pieces(next@, c)) =~= contents(out@)
                + pieces(next@, c));
        }
        rest = next;
        n = find(rest, c);
    }
    let ghost before_push = out@;
    out.push(rest);
    assert(contents(out@) =~= contents(before_push) + seq![rest@]);
    out
}

/// Drops the whitespace at both ends of `s`.
pub fn trim<'a>(s: &'a [char]) -> (r: &'a [char])
    ensures
        r@ == trimmed(s@),
{
    proof {
        lemma_leading_spaces(s@);
    }
    let start = count_spaces(s);
    let mut r = vstd::slice::slice_subrange(s, start, s.len());
    assert(r@ =~= trimmed_start(s@));
    while r.len() > 0 && is_space(r[r.len() - 1])
        invariant
            trimmed_end(r@) == trimmed(s@),
        decreases r@.len(),
    {
        let shorter = vstd::slice::slice_subrange(r, 0, r.len() - 1);
        assert(shorter@ =~= r@.drop_last());
        r = shorter;
    }
    r
}

/// Drops the run of `c` at the end of `s`.
pub fn trim_trailing<'a>(s: &'a [char], c: char) -> (r: &'a [char])
    ensures
        r@ == without_trailing(s@, c),
{
    let mut r = s;
    while r.len() > 0 && r[r.len() - 1] == c
        invariant
            without_trailing(r@, c) == without_trailing(s@, c),
        decreases r@.len(),
    {
        let shorter = vstd::slice::slice_subrange(r, 0, r.len() - 1);
        assert(shorter@ =~= r@.drop_last());
        r = shorter;
    }
    r
}

/// Splits `s` at its first `c`.
pub fn split_first<'a>(s: &'a [char], c: char) -> (r: Option<(&'a [char], &'a [char])>)
    ensures
        match r {
            Some((a, b)) => halves(s@, c) == Some((a@, b@)),
            None => halves(s@, c) is None,
        },
{
    let n = find(s, c);
    if n < s.len() {
        let a = vstd::slice::slice_subrange(s, 0, n);
        let b = vstd::slice::slice_subrange(s, n + 1, s.len());
        assert(a@ =~= s@.take(n as int));
        assert(b@ =~= s@.skip(n + 1));
        Some((a, b))
    } else {
        None
    }
}

/// What stands in `s` before its first `c`.
pub fn take_before<'a>(s: &'a [char], c: char) -> (r: &'a [char])
    ensures
        r@ == before(s@, c),
{
    let n = find(s, c);
    let r = vstd::slice::slice_subrange(s, 0, n);
    assert(r@ =~= s@.take(n as int));
    r
}

/// The characters of `s`.
pub fn chars_of(s: &str) -> (r: Vec<char>)
    ensures
        r@ == s@,
{
    let mut r: Vec<char> = Vec::new();
    for c in it: s.chars()
        invariant
            r@ == it.seq().take(it.index() as int),
            it.seq() == s@,
    {
        r.push(c);
    }
    r
}

/// The text that `s` spells.
pub fn text_of(s: &[char]) -> (r: String)
    ensures
        r@ == s@,
{
    let mut r: String = String::new();
    let mut i: usize = 0;
    assert(s@.take(0) =~= Seq::empty());
    while i < s.len()
        invariant
            i <= s@.len(),
            r@ == s@.take(i as int),
        decreases s@.len() - i,
    {
        r.push(s[i]);
        i = i + 1;
        assert(s@.take(i as int) =~= s@.take(i - 1).push(s@[i - 1]));
    }
    assert(s@.take(i as int) =~= s@);
    r
}

/// Whether `s` starts with `p`.
pub fn has_prefix(s: &[char], p: &str) -> (r: bool)
    ensures
        r == p@.is_prefix_of(s@),
{
    let want: Vec<char> = chars_of(p);
    if want.len() > s.len() {
        return false;
    }
    let mut i: usize = 0;
    while i < want.len()
        invariant
            want@ == p@,
            i <= want@.len() <= s@.len(),
            forall|j: int| 0 <= j < i ==> want@[j] == s@[j],
        decreases want@.len() - i,
    {
        if want[i] != s[i] {
            assert(p@[i as int] != s@.subrange(0, p@.len() as int)[i as int]);
            return false;
        }
        i = i + 1;
    }
    assert(p@ =~= s@.subrange(0, p@.len() as int));
    true
}

/// Whether `s` ends with `p`.
pub fn has_suffix(s: &[char], p: &str) -> (r: bool)
    ensures
        r == p@.is_suffix_of(s@),
{
    let want: Vec<char> = chars_of(p);
    if want.len() > s.len() {
        return false;
    }
    let start: usize = s.len() - want.len();
    let tail = vstd::slice::slice_subrange(s, start, s.len());
    let r = same_text(tail, p);
    r
}

/// Whether `s` spells `t`.
pub fn same_text(s: &[char], t: &str) -> (r: bool)
    ensures
        r == (s@ == t@),
{
    let want: Vec<char> = chars_of(t);
    if want.len() != s.len() {
        return false;
    }
    let mut i: usize = 0;
    while i < want.len()
        invariant
            want@ == t@,
            i <= want@.len(),
            want@.len() == s@.len(),
            forall|j: int| 0 <= j < i ==> want@[j] == s@[j],
        decreases want@.len() - i,
    {
        if want[i] != s[i] {
            assert(t@[i as int] != s@[i as int]);
            return false;
        }
        i = i + 1;
    }
    assert(s@ =~= t@);
    true
}

/// What `s` holds after the prefix `p`.
pub fn strip<'a>(s: &'a [char], p: &str) -> (r: Option<&'a [char]>)
    ensures
        match r {
            Some(t) => after_prefix(s@, p@) == Some(t@),
            None => after_prefix(s@, p@) is None,
        },
{
    if has_prefix(s, p) {
        let skip: usize = chars_of(p).len();
        let t = vstd::slice::slice_subrange(s, skip, s.len());
        assert(t@ =~= s@.skip(p@.len() as int));
        Some(t)
    } else {
        None
    }
}

/// Whether `c` occurs in `s`.
pub fn holds(s: &[char], c: char) -> (r: bool)
    ensures
        r == s@.contains(c),
{
    proof {
        lemma_position(s@, c);
    }
    let n = find(s, c);
    n < s.len()
}

/// The `i`-th of `v`, or the empty text.
pub fn column<'a>(v: &Vec<&'a [char]>, i: usize) -> (r: &'a [char])
    ensures
        r@ == nth_or_empty(contents(v@), i as int),
{
    if i < v.len() {
        v[i]
    } else {
        let empty: &'a [char] = &[];
        assert(empty@ =~= Seq::empty());
        empty
    }
}

/// Text without whitespace is its own trimming.
pub proof fn lemma_trimmed_spaceless(s: Seq<char>)
    requires
        spaceless(s),
    ensures
        trimmed(s) == s,
{
    lemma_leading_spaces(s);
    if leading_spaces(s) > 0 {
        assert(space(s[0]));
    }
    assert(s.skip(0) =~= s);
    if s.len() > 0 {
        assert(!space(s[s.len() - 1]));
    }
}

/// Trimmed text ends in no whitespace.
pub proof fn lemma_trimmed_last(s: Seq<char>)
    ensures
        trimmed(s).len() > 0 ==> !space(trimmed(s).last()),
{
    lemma_trimmed_end_last(trimmed_start(s));
}

/// What `trimmed_end` leaves ends in no whitespace.
proof fn lemma_trimmed_end_last(s: Seq<char>)
    ensures
        trimmed_end(s).len() > 0 ==> !space(trimmed_end(s).last()),
    decreases s.len(),
{
    if s.len() > 0 && space(s.last()) {
        lemma_trimmed_end_last(s.drop_last());
    }
}

/// Text that a line feed can follow, and that is then read back as one line.
pub open spec fn one_line(s: Seq<char>) -> bool {
    &&& !s.contains('\n')
    &&& s.len() > 0 ==> s.last() != '\r'
}

/// Text without whitespace is one line.
pub proof fn lemma_spaceless_line(s: Seq<char>)
    requires
        spaceless(s),
    ensures
        one_line(s),
{
    assert(space('\n') && space('\r'));
    if s.contains('\n') {
        let i = choose|i: int| 0 <= i < s.len() && s[i] == '\n';
        assert(!space(s[i]));
    }
    if s.len() > 0 {
        assert(!space(s[s.len() - 1]));
    }
}

/// A line feed after a line ends it.
pub proof fn lemma_first_line(a: Seq<char>, b: Seq<char>)
    requires
        one_line(a),
    ensures
        lines(a + seq!['\n'] + b) == seq![a] + lines(b),
{
    let s = a + seq!['\n'] + b;
    lemma_position(s, '\n');
    let n = position(s, '\n') as int;
    assert(s[a.len() as int] == '\n');
    if n < a.len() {
        assert(a[n] == '\n');
    }
    assert(n == a.len());
    assert(s.take(n) =~= a);
    assert(s.skip(n + 1) =~= b);
}

/// A line that nothing follows is read back.
pub proof fn lemma_only_line(a: Seq<char>)
    requires
        one_line(a),
        a.len() > 0,
    ensures
        lines(a) == seq![a],
{
    lemma_position(a, '\n');
    let n = position(a, '\n') as int;
    if n < a.len() {
        assert(a[n] == '\n');
    }
}

/// Words are not empty and hold no whitespace.
pub proof fn lemma_words(s: Seq<char>)
    ensures
        forall|i: int|
            0 <= i < words(s).len() ==> (#[trigger] words(s)[i]).len() > 0 && spaceless(
                words(s)[i],
            ),
    decreases s.len(),
{
    lemma_leading_spaces(s);
    let t = s.skip(leading_spaces(s) as int);
    if t.len() > 0 {
        lemma_leading_word(t);
        let n = leading_word(t) as int;
        let rest = t.skip(n);
        lemma_words(rest);
        assert forall|i: int| 0 <= i < words(s).len() implies (#[trigger] words(s)[i]).len() > 0
            && spaceless(words(s)[i]) by {
            if i == 0 {
                assert(words(s)[0] == t.take(n));
            } else {
                assert(words(s)[i] == words(rest)[i - 1]);
            }
        }
    }
}

/// Text that neither starts nor ends with whitespace is its own trimming.
pub proof fn lemma_trimmed_keeps(s: Seq<char>)
    requires
        s.len() > 0 ==> !space(s[0]) && !space(s.last()),
    ensures
        trimmed(s) == s,
{
    assert(s.skip(0) =~= s);
}

/// What `trimmed_end` leaves is a beginning.
proof fn lemma_trimmed_end_prefix(s: Seq<char>)
    ensures
        trimmed_end(s).len() <= s.len(),
        trimmed_end(s) == s.take(trimmed_end(s).len() as int),
    decreases s.len(),
{
    if s.len() > 0 && space(s.last()) {
        lemma_trimmed_end_prefix(s.drop_last());
        assert(s.drop_last().take(trimmed_end(s).len() as int) =~= s.take(
            trimmed_end(s).len() as int,
        ));
    } else {
        assert(s.take(s.len() as int) =~= s);
    }
}

/// Trimming twice is trimming once, and trimming adds no character.
pub proof fn lemma_trimmed_again(s: Seq<char>)
    ensures
        trimmed(trimmed(s)) == trimmed(s),
        forall|c: char| trimmed(s).contains(c) ==> s.contains(c),
{
    let t = trimmed_start(s);
    let r = trimmed(s);
    lemma_leading_spaces(s);
    lemma_trimmed_end_prefix(t);
    lemma_trimmed_last(s);
    if r.len() > 0 {
        assert(r[0] == t[0]);
        assert(t[0] == s[leading_spaces(s) as int]);
    }
    lemma_trimmed_keeps(r);
    assert forall|c: char| r.contains(c) implies s.contains(c) by {
        let i = choose|i: int| 0 <= i < r.len() && r[i] == c;
        assert(s[i + leading_spaces(s)] == c);
    }
}

/// No line holds a line feed.
pub proof fn lemma_lines_hold_no_feed(s: Seq<char>)
    ensures
        forall|i: int| 0 <= i < lines(s).len() ==> !(#[trigger] lines(s)[i]).contains('\n'),
    decreases s.len(),
{
    lemma_position(s, '\n');
    let n = position(s, '\n') as int;
    if s.len() == 0 {
    } else if n >= s.len() {
        assert(!s.contains('\n'));
    } else {
        let rest = s.skip(n + 1);
        lemma_lines_hold_no_feed(rest);
        let first = without_cr(s.take(n));
        if first.contains('\n') {
            let i = choose|i: int| 0 <= i < first.len() && first[i] == '\n';
            assert(s[i] == '\n');
        }
        assert forall|i: int| 0 <= i < lines(s).len() implies !(#[trigger] lines(s)[i]).contains(
            '\n',
        ) by {
            if i == 0 {
                assert(lines(s)[0] == first);
            } else {
                assert(lines(s)[i] == lines(rest)[i - 1]);
            }
        }
    }
}

/// A permutation holds what it permutes.
pub proof fn lemma_permuted_contains<T>(a: Seq<T>, b: Seq<T>, x: T)
    requires
        a.to_multiset() == b.to_multiset(),
        a.contains(x),
    ensures
        b.contains(x),
{
    a.to_multiset_ensures();
    b.to_multiset_ensures();
    assert(a.to_multiset().count(x) > 0);
    assert(b.to_multiset().count(x) > 0);
}

/// Every character of `s` is whitespace.
pub open spec fn blank(s: Seq<char>) -> bool {
    forall|i: int| 0 <= i < s.len() ==> space(#[trigger] s[i])
}

/// The first whitespace of `s` stands at `n`, or `s` ends there.
proof fn lemma_word_ends(s: Seq<char>, n: int)
    requires
        0 <= n <= s.len(),
        forall|i: int| 0 <= i < n ==> !space(#[trigger] s[i]),
        n < s.len() ==> space(s[n]),
    ensures
        leading_word(s) == n,
{
    lemma_leading_word(s);
    if leading_word(s) < n {
        assert(!space(s[leading_word(s) as int]));
    } else if leading_word(s) > n {
        assert(!space(s[n]));
    }
}

/// The first character of `s` that is no whitespace stands at `n`, or `s` ends there.
proof fn lemma_spaces_end(s: Seq<char>, n: int)
    requires
        0 <= n <= s.len(),
        forall|i: int| 0 <= i < n ==> space(#[trigger] s[i]),
        n < s.len() ==> !space(s[n]),
    ensures
        leading_spaces(s) == n,
{
    lemma_leading_spaces(s);
    if leading_spaces(s) < n {
        assert(space(s[leading_spaces(s) as int]));
    } else if leading_spaces(s) > n {
        assert(space(s[n]));
    }
}

/// Whitespace in front does not change the words.
proof fn lemma_words_after_space(c: char, b: Seq<char>)
    requires
        space(c),
    ensures
        words(seq![c] + b) == words(b),
{
    let s = seq![c] + b;
    lemma_leading_spaces(s);
    lemma_leading_spaces(b);
    assert(s[0] == c);
    assert(s.skip(1) =~= b);
    assert(s.skip(leading_spaces(s) as int) =~= b.skip(leading_spaces(b) as int));
}

/// Whitespace parts words: the words around it are those of the two sides.
pub proof fn words_part_at_space(a: Seq<char>, c: char, b: Seq<char>)
    requires
        space(c),
    ensures
        words(a + seq![c] + b) == words(a) + words(b),
    decreases a.len(),
{
    let s = a + seq![c] + b;
    if a.len() == 0 {
        assert(s =~= seq![c] + b);
        lemma_words_after_space(c, b);
        no_text_has_no_words();
        assert(a =~= Seq::empty());
        assert(words(a) + words(b) =~= words(b));
    } else if space(a[0]) {
        let t = a.skip(1);
        words_part_at_space(t, c, b);
        lemma_words_after_space(a[0], t);
        assert(a =~= seq![a[0]] + t);
        lemma_words_after_space(a[0], t + seq![c] + b);
        assert(s =~= seq![a[0]] + (t + seq![c] + b));
    } else {
        lemma_leading_word(a);
        let n = leading_word(a) as int;
        let t = a.skip(n);
        assert(s[a.len() as int] == c);
        assert forall|i: int| 0 <= i < n implies !space(#[trigger] s[i]) by {
            assert(s[i] == a[i]);
        }
        if n < a.len() {
            assert(s[n] == a[n]);
        }
        lemma_word_ends(s, n);
        assert(s[0] == a[0]);
        lemma_spaces_end(s, 0);
        lemma_spaces_end(a, 0);
        assert(s.skip(0) =~= s && a.skip(0) =~= a);
        assert(n > 0);
        words_part_at_space(t, c, b);
        assert(s.take(n) =~= a.take(n));
        assert(s.skip(n) =~= t + seq![c] + b);
        assert(words(s) == seq![s.take(n)] + words(s.skip(n)));
        assert(words(a) == seq![a.take(n)] + words(t));
        assert(seq![a.take(n)] + (words(t) + words(b)) =~= seq![a.take(n)] + words(t) + words(b));
    }
}

/// No text has no words.
pub proof fn no_text_has_no_words()
    ensures
        words(Seq::empty()) == Seq::<Seq<char>>::empty(),
{
    let s = Seq::<char>::empty();
    assert(s.skip(leading_spaces(s) as int).len() == 0);
}

/// Text without whitespace is one word.
pub proof fn text_without_space_is_a_word(w: Seq<char>)
    requires
        spaceless(w),
        w.len() > 0,
    ensures
        words(w) == seq![w],
{
    assert(!space(w[0]));
    lemma_spaces_end(w, 0);
    lemma_word_ends(w, w.len() as int);
    assert(w.skip(0) =~= w);
    assert(w.take(w.len() as int) =~= w);
    assert(w.skip(w.len() as int) =~= Seq::empty());
    no_text_has_no_words();
    assert(seq![w] + Seq::empty() =~= seq![w]);
}

/// A line feed ends a line, and a carriage return right before it belongs to it; what follows
/// is read as if it stood alone.
pub proof fn lines_part_at_feed(a: Seq<char>, b: Seq<char>)
    requires
        !a.contains('\n'),
    ensures
        lines(a + seq!['\n'] + b) == seq![
            if a.len() > 0 && a.last() == '\r' {
                a.drop_last()
            } else {
                a
            },
        ] + lines(b),
{
    let s = a + seq!['\n'] + b;
    lemma_first_of(a, '\n', b);
    assert(s.take(a.len() as int) =~= a);
    assert(s.skip(a.len() as int + 1) =~= b);
}

/// Text without a line feed is one line, unless it is empty.
pub proof fn text_without_feed_is_a_line(a: Seq<char>)
    requires
        !a.contains('\n'),
    ensures
        a.len() > 0 ==> lines(a) == seq![a],
        a.len() == 0 ==> lines(a) == Seq::<Seq<char>>::empty(),
{
    lemma_none_of(a, '\n');
}

/// The first `c` stands after what holds none.
proof fn lemma_first_of(a: Seq<char>, c: char, b: Seq<char>)
    requires
        !a.contains(c),
    ensures
        position(a + seq![c] + b, c) == a.len(),
{
    let s = a + seq![c] + b;
    lemma_position(s, c);
    let n = position(s, c) as int;
    assert(s[a.len() as int] == c);
    if n < a.len() {
        assert(a[n] == c);
    }
}

/// Where there is no `c`, its position is the end.
proof fn lemma_none_of(a: Seq<char>, c: char)
    requires
        !a.contains(c),
    ensures
        position(a, c) == a.len(),
{
    lemma_position(a, c);
    let n = position(a, c) as int;
    if n < a.len() {
        assert(a[n] == c);
    }
}

/// Every `c` parts pieces, and text without one is a single piece.
pub proof fn pieces_part_at_each(a: Seq<char>, c: char, b: Seq<char>)
    requires
        !a.contains(c),
    ensures
        pieces(a + seq![c] + b, c) == seq![a] + pieces(b, c),
        pieces(a, c) == seq![a],
{
    let s = a + seq![c] + b;
    lemma_first_of(a, c, b);
    lemma_none_of(a, c);
    assert(s.take(a.len() as int) =~= a);
    assert(s.skip(a.len() as int + 1) =~= b);
}

/// The first `c` parts text into what stands before and after it; without one there is only
/// what stands before.
pub proof fn halves_part_at_first(a: Seq<char>, c: char, b: Seq<char>)
    requires
        !a.contains(c),
    ensures
        halves(a + seq![c] + b, c) == Some((a, b)),
        halves(a, c) is None,
        before(a + seq![c] + b, c) == a,
        before(a, c) == a,
{
    let s = a + seq![c] + b;
    lemma_first_of(a, c, b);
    lemma_none_of(a, c);
    assert(s.take(a.len() as int) =~= a);
    assert(s.skip(a.len() as int + 1) =~= b);
    assert(a.take(a.len() as int) =~= a);
}

/// Blank text after `s` is trimmed off.
proof fn lemma_trimmed_end_blank(s: Seq<char>, r: Seq<char>)
    requires
        s.len() > 0 ==> !space(s.last()),
        blank(r),
    ensures
        trimmed_end(s + r) == s,
    decreases r.len(),
{
    if r.len() == 0 {
        assert(s + r =~= s);
    } else {
        assert(space(r[r.len() - 1]));
        assert((s + r).last() == r.last());
        assert((s + r).drop_last() =~= s + r.drop_last());
        lemma_trimmed_end_blank(s, r.drop_last());
    }
}

/// Trimming gives what stands between blank ends.
pub proof fn trimming_drops_blank_ends(l: Seq<char>, s: Seq<char>, r: Seq<char>)
    requires
        blank(l),
        blank(r),
        s.len() > 0 ==> !space(s[0]) && !space(s.last()),
    ensures
        trimmed(l + s + r) == s,
{
    let all = l + s + r;
    if s.len() > 0 {
        assert forall|i: int| 0 <= i < l.len() implies space(#[trigger] all[i]) by {
            assert(all[i] == l[i]);
        }
        assert(all[l.len() as int] == s[0]);
        lemma_spaces_end(all, l.len() as int);
        assert(all.skip(l.len() as int) =~= s + r);
        lemma_trimmed_end_blank(s, r);
    } else {
        assert forall|i: int| 0 <= i < all.len() implies space(#[trigger] all[i]) by {
            if i < l.len() {
                assert(all[i] == l[i]);
            } else {
                assert(all[i] == r[i - l.len()]);
            }
        }
        lemma_spaces_end(all, all.len() as int);
        assert(all.skip(all.len() as int) =~= s);
    }
}

/// Dropping a trailing character drops its whole run at the end and nothing else.
pub proof fn trailing_run_is_dropped(s: Seq<char>, c: char, r: Seq<char>)
    requires
        s.len() > 0 ==> s.last() != c,
        forall|i: int| 0 <= i < r.len() ==> #[trigger] r[i] == c,
    ensures
        without_trailing(s + r, c) == s,
    decreases r.len(),
{
    if r.len() == 0 {
        assert(s + r =~= s);
    } else {
        assert(r[r.len() - 1] == c);
        assert((s + r).last() == r.last());
        assert((s + r).drop_last() =~= s + r.drop_last());
        trailing_run_is_dropped(s, c, r.drop_last());
    }
}

/// A file that is missing has no lines; the first of some is left out, and what is not there
/// is empty.
pub proof fn parts_of_tables(x: Seq<char>, v: Seq<Seq<char>>, i: int)
    ensures
        lines_of(None) == Seq::<Seq<char>>::empty(),
        lines_of(Some(x)) == lines(x),
        after_first(seq![x] + v) == v,
        after_first(Seq::empty()) == Seq::<Seq<char>>::empty(),
        nth_or_empty(v, i) == (if 0 <= i < v.len() {
            v[i]
        } else {
            Seq::empty()
        }),
{
    assert((seq![x] + v).skip(1) =~= v);
}

/// What follows a prefix is found after it, and only there.
pub proof fn prefix_is_stripped(p: Seq<char>, v: Seq<char>, s: Seq<char>)
    ensures
        after_prefix(p + v, p) == Some(v),
        after_prefix(s, p) matches Some(t) ==> s == p + t,
{
    assert(p =~= (p + v).subrange(0, p.len() as int));
    assert((p + v).skip(p.len() as int) =~= v);
    if p.is_prefix_of(s) {
        assert(s =~= p + s.skip(p.len() as int));
    }
}

/// Whitespace is what Unicode calls so.
pub proof fn whitespace_is_listed(c: char)
    ensures
        space(c) <==> seq![
            '\t', '\n', '\u{b}', '\u{c}', '\r', ' ', '\u{85}', '\u{a0}', '\u{1680}', '\u{2000}',
            '\u{2001}', '\u{2002}', '\u{2003}', '\u{2004}', '\u{2005}', '\u{2006}', '\u{2007}',
            '\u{2008}', '\u{2009}', '\u{200a}', '\u{2028}', '\u{2029}', '\u{202f}', '\u{205f}',
            '\u{3000}',
        ].contains(c),
{
    let all = seq![
        '\t', '\n', '\u{b}', '\u{c}', '\r', ' ', '\u{85}', '\u{a0}', '\u{1680}', '\u{2000}',
        '\u{2001}', '\u{2002}', '\u{2003}', '\u{2004}', '\u{2005}', '\u{2006}', '\u{2007}',
        '\u{2008}', '\u{2009}', '\u{200a}', '\u{2028}', '\u{2029}', '\u{202f}', '\u{205f}',
        '\u{3000}',
    ];
    let n = c as int;
    let at = if n <= 0xd {
        n - 9
    } else if n == 0x20 {
        5
    } else if n == 0x85 {
        6
    } else if n == 0xa0 {
        7
    } else if n == 0x1680 {
        8
    } else if n <= 0x200a {
        n - 0x2000 + 9
    } else if n == 0x2028 {
        20
    } else if n == 0x2029 {
        21
    } else if n == 0x202f {
        22
    } else if n == 0x205f {
        23
    } else {
        24
    };
    if space(c) {
        assert(all[at] == c);
    }
}

/// The first word of text is what stands between blank text at its start and the next
/// whitespace or the end.
pub proof fn first_word_is_first(l: Seq<char>, w: Seq<char>, r: Seq<char>)
    requires
        blank(l),
        spaceless(w),
        w.len() > 0,
        r.len() > 0 ==> space(r[0]),
    ensures
        words(l + w + r).len() > 0,
        words(l + w + r)[0] == w,
    decreases l.len(),
{
    if l.len() > 0 {
        let k = l.skip(1);
        assert forall|i: int| 0 <= i < k.len() implies space(#[trigger] k[i]) by {
            assert(k[i] == l[i + 1]);
        }
        first_word_is_first(k, w, r);
        assert(space(l[0]));
        lemma_words_after_space(l[0], k + w + r);
        assert(l + w + r =~= seq![l[0]] + (k + w + r));
    } else {
        text_without_space_is_a_word(w);
        if r.len() > 0 {
            words_part_at_space(w, r[0], r.skip(1));
            assert(l + w + r =~= w + seq![r[0]] + r.skip(1));
        } else {
            assert(l + w + r =~= w);
        }
    }
}

/// What `c` parts into pieces is the first piece where there is one, and otherwise the first
/// piece, `c`, and what the others are the pieces of.
pub proof fn pieces_make_text(s: Seq<char>, c: char) -> (rest: Seq<char>)
    ensures
        pieces(s, c).len() >= 1,
        !pieces(s, c)[0].contains(c),
        pieces(s, c).len() == 1 ==> s == pieces(s, c)[0],
        pieces(s, c).len() > 1 ==> s == pieces(s, c)[0] + seq![c] + rest && pieces(rest, c)
            == pieces(s, c).skip(1),
{
    lemma_position(s, c);
    let n = position(s, c) as int;
    let first = s.take(n);
    assert(!first.contains(c));
    if n < s.len() {
        let rest = s.skip(n + 1);
        assert(s =~= first + seq![c] + rest);
        pieces_part_at_each(first, c, rest);
        assert(pieces(s, c).skip(1) =~= pieces(rest, c));
        lemma_pieces_have_one(rest, c);
        rest
    } else {
        assert(s =~= first);
        pieces_part_at_each(first, c, s);
        s
    }
}

/// There is always a piece.
proof fn lemma_pieces_have_one(s: Seq<char>, c: char)
    ensures
        pieces(s, c).len() >= 1,
{
}

/// Text parts at a character just where it holds it.
pub proof fn halves_need_the_character(s: Seq<char>, c: char)
    ensures
        halves(s, c) is Some <==> s.contains(c),
{
    lemma_position(s, c);
    if s.contains(c) {
        let k = choose|k: int| 0 <= k < s.len() && s[k] == c;
        if position(s, c) == s.len() {
            assert(s[k] != c);
        }
    }
}

/// Blank text in front is trimmed off.
proof fn lemma_trimmed_blank_start(l: Seq<char>, s: Seq<char>)
    requires
        blank(l),
    ensures
        trimmed(l + s) == trimmed(s),
{
    lemma_leading_spaces(s);
    let n = leading_spaces(s) as int;
    let all = l + s;
    assert forall|i: int| 0 <= i < l.len() + n implies space(#[trigger] all[i]) by {
        if i < l.len() {
            assert(all[i] == l[i]);
        } else {
            assert(all[i] == s[i - l.len()]);
        }
    }
    if n < s.len() {
        assert(all[l.len() + n] == s[n]);
    }
    lemma_spaces_end(all, l.len() + n);
    assert(all.skip(l.len() + n) =~= s.skip(n));
}

/// Trimming the end stops at what is no whitespace.
proof fn lemma_trimmed_end_stops(x: Seq<char>, c: char, y: Seq<char>) -> (z: Seq<char>)
    requires
        !space(c),
    ensures
        trimmed_end(x + seq![c] + y) == x + seq![c] + z,
    decreases y.len(),
{
    let s = x + seq![c] + y;
    if y.len() == 0 {
        assert(s.last() == c);
        y
    } else if space(y.last()) {
        assert(s.last() == y.last());
        assert(s.drop_last() =~= x + seq![c] + y.drop_last());
        lemma_trimmed_end_stops(x, c, y.drop_last())
    } else {
        assert(s.last() == y.last());
        y
    }
}

/// Blank ends do not change what stands before a character that is no whitespace, trimmed.
pub proof fn trimming_commutes_with_before(s: Seq<char>, c: char)
    requires
        !space(c),
    ensures
        trimmed(before(trimmed(s), c)) == trimmed(before(s, c)),
{
    lemma_position(s, c);
    let p = position(s, c) as int;
    if p < s.len() {
        let x = s.take(p);
        let y = s.skip(p + 1);
        assert(s =~= x + seq![c] + y);
        assert(!x.contains(c));
        lemma_leading_spaces(s);
        let n = leading_spaces(s) as int;
        if n > p {
            assert(space(s[p]));
        }
        let l = x.take(n);
        let w = x.skip(n);
        assert forall|i: int| 0 <= i < l.len() implies space(#[trigger] l[i]) by {
            assert(l[i] == s[i]);
        }
        assert(!w.contains(c)) by {
            if w.contains(c) {
                let k = choose|k: int| 0 <= k < w.len() && w[k] == c;
                assert(x[k + n] == c);
            }
        }
        assert(s.skip(n) =~= w + seq![c] + y);
        let z = lemma_trimmed_end_stops(w, c, y);
        halves_part_at_first(w, c, z);
        halves_part_at_first(x, c, y);
        lemma_trimmed_blank_start(l, w);
        assert(l + w =~= x);
    } else {
        let t = trimmed(s);
        assert(!s.contains(c));
        halves_part_at_first(s, c, s);
        lemma_trimmed_again(s);
        assert(!t.contains(c));
        halves_part_at_first(t, c, t);
    }
}

/// Blank text at the end is trimmed off.
pub proof fn blank_end_is_dropped(s: Seq<char>, r: Seq<char>)
    requires
        blank(r),
    ensures
        trimmed(s + r) == trimmed(s),
{
    lemma_leading_spaces(s);
    let n = leading_spaces(s) as int;
    let all = s + r;
    if n == s.len() {
        trimming_drops_blank_ends(s, Seq::empty(), r);
        trimming_drops_blank_ends(s, Seq::empty(), Seq::empty());
        assert(s + Seq::empty() + r =~= all);
        assert(s + Seq::empty() + Seq::empty() =~= s);
    } else {
        assert forall|i: int| 0 <= i < n implies space(#[trigger] all[i]) by {
            assert(all[i] == s[i]);
        }
        assert(all[n] == s[n]);
        lemma_spaces_end(all, n);
        assert(all.skip(n) =~= s.skip(n) + r);
        lemma_trimmed_end_again(s.skip(n), r);
    }
}

/// Trimming the end does not mind blank text after it.
proof fn lemma_trimmed_end_again(s: Seq<char>, r: Seq<char>)
    requires
        blank(r),
    ensures
        trimmed_end(s + r) == trimmed_end(s),
    decreases r.len(),
{
    if r.len() == 0 {
        assert(s + r =~= s);
    } else {
        assert(space(r[r.len() - 1]));
        assert((s + r).last() == r.last());
        assert((s + r).drop_last() =~= s + r.drop_last());
        lemma_trimmed_end_again(s, r.drop_last());
    }
}

/// The contents of slices are what they hold, each at its place.
pub proof fn contents_are_slices(v: Seq<&[char]>, i: int)
    ensures
        contents(v).len() == v.len(),
        0 <= i < v.len() ==> contents(v)[i] == v[i]@,
{
}

} // verus!
