//! The processor, from `/proc/stat`, `/proc/cpuinfo` and its frequency file.

use crate::number;
use crate::outside;
use crate::text;
use vstd::prelude::*;

verus! {

/// The ticks of `/proc/stat` add up to more than 64 bits hold.
#[derive(Clone, Copy, Debug, PartialEq, Eq, Structural)]
pub struct TickOverflow;

/// The numbers that `fields` start with, up to the first field that is no number.
pub open spec fn leading_numbers(fields: Seq<Seq<char>>) -> Seq<u64>
    decreases fields.len(),
{
    if fields.len() == 0 {
        Seq::empty()
    } else {
        match number::as_u64(fields[0]) {
            Some(n) => seq![n] + leading_numbers(fields.skip(1)),
            None => Seq::empty(),
        }
    }
}

/// The sum of numbers.
pub open spec fn total_of(s: Seq<u64>) -> int
    decreases s.len(),
{
    if s.len() == 0 {
        0
    } else {
        total_of(s.drop_last()) + s.last()
    }
}

/// The `i`-th of `s`, or zero.
pub open spec fn nth_or_zero(s: Seq<u64>, i: int) -> int {
    if 0 <= i < s.len() {
        s[i] as int
    } else {
        0
    }
}

/// The idle ticks among the numbers of the processor line: idle and waiting for I/O.
pub open spec fn idle_of(s: Seq<u64>) -> int {
    nth_or_zero(s, 3) + nth_or_zero(s, 4)
}

/// The ticks that the fields after the name of the processor line say: all of them, and the
/// idle ones. There are none where a field is no number or where all are zero. The numbers
/// before the first field that is none have to add up within 64 bits.
pub open spec fn ticks_of(fields: Seq<Seq<char>>) -> Result<Option<(u64, u64)>, TickOverflow> {
    let numbers = leading_numbers(fields);
    if total_of(numbers) > u64::MAX {
        Err(TickOverflow)
    } else if numbers.len() < fields.len() || total_of(numbers) == 0 {
        Ok(None)
    } else {
        Ok(Some((total_of(numbers) as u64, idle_of(numbers) as u64)))
    }
}

/// The ticks that the text of `/proc/stat` says: those of its first line.
pub open spec fn stat_of(stat: Option<Seq<char>>) -> Result<Option<(u64, u64)>, TickOverflow> {
    let ls = text::lines_of(stat);
    if ls.len() == 0 {
        Ok(None)
    } else {
        ticks_of(text::after_first(text::words(ls[0])))
    }
}

/// `total_of` counts every number, and none is negative.
proof fn lemma_total_take(s: Seq<u64>, n: int)
    requires
        0 <= n <= s.len(),
    ensures
        0 <= total_of(s.take(n)) <= total_of(s),
        nth_or_zero(s, 3) + nth_or_zero(s, 4) <= total_of(s),
    decreases s.len(),
{
    if s.len() == 0 {
        assert(s.take(n) =~= s);
    } else {
        let t = s.drop_last();
        if n == s.len() {
            lemma_total_take(t, n - 1);
            assert(s.take(n) =~= s);
            assert(t.take(n - 1) =~= t);
        } else {
            lemma_total_take(t, n);
            assert(t.take(n) =~= s.take(n));
        }
        lemma_total_take(t, 0);
        assert(t.take(0) =~= Seq::empty());
    }
}

/// The numbers before the first field that is none.
proof fn lemma_leading_numbers(fields: Seq<Seq<char>>)
    ensures
        leading_numbers(fields).len() <= fields.len(),
        forall|i: int|
            0 <= i < leading_numbers(fields).len() ==> number::as_u64(fields[i]) == Some(
                #[trigger] leading_numbers(fields)[i],
            ),
        leading_numbers(fields).len() < fields.len() ==> number::as_u64(
            fields[leading_numbers(fields).len() as int],
        ) is None,
    decreases fields.len(),
{
    if fields.len() > 0 {
        let rest = fields.skip(1);
        lemma_leading_numbers(rest);
        match number::as_u64(fields[0]) {
            Some(n) => {
                let all = leading_numbers(fields);
                assert forall|i: int| 0 <= i < all.len() implies number::as_u64(fields[i]) == Some(
                    #[trigger] all[i],
                ) by {
                    if i > 0 {
                        assert(all[i] == leading_numbers(rest)[i - 1]);
                        assert(fields[i] == rest[i - 1]);
                    }
                }
            },
            None => {},
        }
    }
}

/// Adds up the fields of the processor line.
fn add_ticks(words: &Vec<&[char]>) -> (r: Result<Option<(u64, u64)>, TickOverflow>)
    ensures
        r == ticks_of(text::after_first(text::contents(words@))),
{
    let ghost fields = text::after_first(text::contents(words@));
    let ghost numbers = leading_numbers(fields);
    let mut total: u64 = 0;
    let mut idle: u64 = 0;
    let mut i: usize = 1;
    proof {
        lemma_leading_numbers(fields);
        assert(numbers.take(0) =~= Seq::empty());
    }
    while i < words.len()
        invariant
            fields == text::after_first(text::contents(words@)),
            numbers == leading_numbers(fields),
            1 <= i,
            i <= words@.len() || (i == 1 && words@.len() == 0),
            i - 1 <= numbers.len() <= fields.len(),
            total == total_of(numbers.take(i - 1)),
            idle == idle_of(numbers.take(i - 1)),
            forall|j: int|
                0 <= j < numbers.len() ==> number::as_u64(fields[j]) == Some(#[trigger] numbers[j]),
            numbers.len() < fields.len() ==> number::as_u64(fields[numbers.len() as int]) is None,
        decreases words@.len() - i,
    {
        proof {
            assert(fields[i - 1] == words@[i as int]@);
            lemma_total_take(numbers, i - 1);
        }
        match number::parse_u64(words[i]) {
            Some(v) => {
                proof {
                    assert(i - 1 < numbers.len());
                    assert(numbers[i - 1] == v);
                    assert(numbers.take(i as int).drop_last() =~= numbers.take(i - 1));
                    lemma_total_take(numbers, i as int);
                    lemma_total_take(numbers.take(i as int), 0);
                }
                if v > u64::MAX - total {
                    return Err(TickOverflow);
                }
                total = total + v;
                if i == 4 {
                    idle = v;
                } else if i == 5 {
                    idle = idle + v;
                }
            },
            None => {
                proof {
                    if i - 1 < numbers.len() {
                        assert(number::as_u64(fields[i - 1]) == Some(numbers[i - 1]));
                    }
                    assert(numbers.take(i - 1) =~= numbers);
                }
                return Ok(None);
            },
        }
        i = i + 1;
    }
    proof {
        assert(numbers.take(i - 1) =~= numbers);
        lemma_total_take(numbers, 0);
    }
    if total == 0 {
        return Ok(None);
    }
    Ok(Some((total, idle)))
}

/// Reads all ticks and the idle ones out of `/proc/stat`.
pub fn parse_proc_stat(stat: Option<&str>) -> (r: Result<Option<(u64, u64)>, TickOverflow>)
    ensures
        r == stat_of(stat.deep_view()),
{
    match stat {
        Some(data) => {
            let all: Vec<char> = text::chars_of(data);
            let ls = text::split_lines(&all);
            assert(text::contents(ls@) == text::lines(data@));
            if ls.len() == 0 {
                return Ok(None);
            }
            assert(text::lines(data@)[0] == ls@[0]@);
            let words = text::split_words(ls[0]);
            add_ticks(&words)
        },
        None => Ok(None),
    }
}

/// There are always ticks to share out, and no more of them are idle than there are.
pub proof fn idle_is_bounded(stat: Option<Seq<char>>)
    ensures
        stat_of(stat) matches Ok(Some((total, idle))) ==> 0 < total && idle <= total,
{
    let ls = text::lines_of(stat);
    if ls.len() > 0 {
        lemma_total_take(leading_numbers(text::after_first(text::words(ls[0]))), 0);
    }
}

/// Whether a line of `/proc/cpuinfo` names the model; `low` is the line in lower case.
pub open spec fn names_model(line: Seq<char>, low: Seq<char>) -> bool {
    text::halves(line, ':') is Some && "model name"@.is_prefix_of(low)
}

/// The model that a line names: its value, up to an `@`.
pub open spec fn model_in(line: Seq<char>) -> Seq<char> {
    match text::halves(line, ':') {
        Some((_, v)) => text::trimmed(text::before(text::trimmed(v), '@')),
        None => Seq::empty(),
    }
}

/// The model that the first line of `ls` with one names, or `CPU`.
pub open spec fn model_of(ls: Seq<Seq<char>>) -> Seq<char>
    decreases ls.len(),
{
    if ls.len() == 0 {
        "CPU"@
    } else if names_model(ls[0], outside::lowered(ls[0])) {
        model_in(ls[0])
    } else {
        model_of(ls.skip(1))
    }
}

/// The model that a line names, given the line in lower case.
pub fn model_in_line(line: &str, low: &str) -> (r: Option<String>)
    ensures
        match r {
            Some(m) => names_model(line@, low@) && m@ == model_in(line@),
            None => !names_model(line@, low@),
        },
{
    let cs: Vec<char> = text::chars_of(line);
    match text::split_first(&cs, ':') {
        Some((_, v)) => if text::has_prefix(&text::chars_of(low), "model name") {
            Some(text::text_of(text::trim(text::take_before(text::trim(v), '@'))))
        } else {
            None
        },
        None => None,
    }
}

/// Reads the model of the processor out of `/proc/cpuinfo`.
pub fn read_cpu_model(cpuinfo: Option<&str>) -> (r: String)
    ensures
        r@ == model_of(text::lines_of(cpuinfo.deep_view())),
{
    if let Some(data) = cpuinfo {
        let all: Vec<char> = text::chars_of(data);
        let ls = text::split_lines(&all);
        let ghost seen = text::contents(ls@);
        let mut i: usize = 0;
        assert(seen.skip(0) =~= seen);
        while i < ls.len()
            invariant
                seen == text::contents(ls@),
                seen == text::lines_of(cpuinfo.deep_view()),
                i <= ls@.len(),
                model_of(seen) == model_of(seen.skip(i as int)),
            decreases ls@.len() - i,
        {
            let line: String = text::text_of(ls[i]);
            let low: String = outside::to_lowercase(line.as_str());
            proof {
                assert(seen.skip(i as int)[0] == line@);
                assert(seen.skip(i as int).skip(1) =~= seen.skip(i + 1));
            }
            if let Some(model) = model_in_line(line.as_str(), low.as_str()) {
                return model;
            }
            i = i + 1;
        }
    }
    "CPU".to_owned()
}

/// How many of `ls` start with `p`.
pub open spec fn count_prefixed(ls: Seq<Seq<char>>, p: Seq<char>) -> nat
    decreases ls.len(),
{
    if ls.len() == 0 {
        0
    } else {
        count_prefixed(ls.drop_last(), p) + if p.is_prefix_of(ls.last()) {
            1nat
        } else {
            0
        }
    }
}

/// The number of processors: the lines that start with `processor`, counted in 16 bits, and
/// at least one.
pub open spec fn cores_of(ls: Seq<Seq<char>>) -> int {
    let n = count_prefixed(ls, "processor"@) as int % 0x1_0000;
    if n == 0 {
        1
    } else {
        n
    }
}

/// There is always at least one processor.
pub proof fn there_is_a_core(ls: Seq<Seq<char>>)
    ensures
        1 <= cores_of(ls) <= u16::MAX,
{
}

/// Reads the number of processors out of `/proc/cpuinfo`.
pub fn read_cpu_cores(cpuinfo: Option<&str>) -> (r: u16)
    ensures
        r == cores_of(text::lines_of(cpuinfo.deep_view())),
{
    let mut n: u16 = 0;
    if let Some(data) = cpuinfo {
        let all: Vec<char> = text::chars_of(data);
        let ls = text::split_lines(&all);
        let ghost seen = text::contents(ls@);
        let mut i: usize = 0;
        assert(seen.take(0) =~= Seq::empty());
        while i < ls.len()
            invariant
                seen == text::contents(ls@),
                i <= ls@.len(),
                n == count_prefixed(seen.take(i as int), "processor"@) as int % 0x1_0000,
            decreases ls@.len() - i,
        {
            proof {
                assert(seen.take(i + 1).last() == ls@[i as int]@);
                assert(seen.take(i + 1).drop_last() =~= seen.take(i as int));
            }
            if text::has_prefix(ls[i], "processor") {
                n = n.wrapping_add(1);
            }
            i = i + 1;
        }
        assert(seen.take(i as int) =~= seen);
    }
    if n == 0 {
        1
    } else {
        n
    }
}

/// The frequency in kHz that a frequency file holds.
pub open spec fn khz_of(freq: Option<Seq<char>>) -> Option<u64> {
    match freq {
        Some(s) => number::as_u64(text::trimmed(s)),
        None => None,
    }
}

/// Reads the frequency in kHz that a frequency file holds.
pub fn read_cpu_freq_khz(freq: Option<&str>) -> (r: Option<u64>)
    ensures
        r == khz_of(freq.deep_view()),
{
    match freq {
        Some(s) => number::parse_u64(text::trim(&text::chars_of(s))),
        None => None,
    }
}

/// The numbers at the start of fields are those of its fields, up to the first without one.
proof fn lemma_numbers_are(fields: Seq<Seq<char>>, ns: Seq<u64>)
    requires
        ns.len() <= fields.len(),
        forall|i: int|
            0 <= i < ns.len() ==> number::as_u64(#[trigger] fields[i]) == Some(ns[i]),
        ns.len() < fields.len() ==> number::as_u64(fields[ns.len() as int]) is None,
    ensures
        leading_numbers(fields) == ns,
{
    lemma_leading_numbers(fields);
    let all = leading_numbers(fields);
    if all.len() < ns.len() {
        assert(number::as_u64(fields[all.len() as int]) == Some(ns[all.len() as int]));
    } else if ns.len() < all.len() {
        assert(number::as_u64(fields[ns.len() as int]) == Some(all[ns.len() as int]));
    }
    assert forall|i: int| 0 <= i < ns.len() implies all[i] == #[trigger] ns[i] by {
        assert(number::as_u64(fields[i]) == Some(ns[i]));
        assert(number::as_u64(fields[i]) == Some(all[i]));
    }
    assert(all =~= ns);
}

/// A sum is that of its parts.
pub proof fn sums_add_up(a: Seq<u64>, n: u64, b: Seq<u64>)
    ensures
        total_of(Seq::empty()) == 0,
        total_of(seq![n]) == n,
        total_of(a + b) == total_of(a) + total_of(b),
    decreases b.len(),
{
    reveal_with_fuel(total_of, 2);
    assert(seq![n].drop_last() =~= Seq::empty());
    if b.len() == 0 {
        assert(a + b =~= a);
    } else {
        sums_add_up(a, n, b.drop_last());
        assert((a + b).drop_last() =~= a + b.drop_last());
        assert((a + b).last() == b.last());
    }
}

/// Where every field is a number, the ticks are their sum, and the idle ones the fourth and
/// the fifth together, as far as there are such. A sum beyond 64 bits is an overflow, and a sum
/// of zero says nothing.
pub proof fn ticks_are_summed(fields: Seq<Seq<char>>, ns: Seq<u64>)
    requires
        ns.len() == fields.len(),
        forall|i: int|
            0 <= i < ns.len() ==> number::as_u64(#[trigger] fields[i]) == Some(ns[i]),
    ensures
        total_of(ns) > 0xffff_ffff_ffff_ffff ==> ticks_of(fields) == Err::<
            Option<(u64, u64)>,
            TickOverflow,
        >(TickOverflow),
        total_of(ns) == 0 ==> ticks_of(fields) == Ok::<Option<(u64, u64)>, TickOverflow>(None),
        0 < total_of(ns) <= 0xffff_ffff_ffff_ffff ==> (ticks_of(fields) matches Ok(
            Some((total, idle)),
        ) && {
            &&& total == total_of(ns)
            &&& ns.len() > 4 ==> idle == ns[3] + ns[4]
            &&& ns.len() == 4 ==> idle == ns[3]
            &&& ns.len() < 4 ==> idle == 0
        }),
{
    lemma_numbers_are(fields, ns);
    lemma_total_take(ns, 0);
}

/// Decimal digits in the fields are the numbers that are summed.
pub proof fn ticks_are_read(fields: Seq<Seq<char>>, ns: Seq<u64>)
    requires
        ns.len() == fields.len(),
        forall|i: int|
            0 <= i < ns.len() ==> #[trigger] fields[i] == number::decimal(ns[i] as nat),
        0 < total_of(ns) <= 0xffff_ffff_ffff_ffff,
        ns.len() > 4,
    ensures
        ticks_of(fields) matches Ok(Some((total, idle))) && total == total_of(ns) && idle == ns[3]
            + ns[4],
{
    assert forall|i: int| 0 <= i < ns.len() implies number::as_u64(#[trigger] fields[i]) == Some(
        ns[i],
    ) by {
        number::decimal_is_read(ns[i] as nat);
    }
    ticks_are_summed(fields, ns);
}

/// A field that is no number leaves nothing to show, unless those before it overflow.
pub proof fn other_fields_say_nothing(fields: Seq<Seq<char>>, ns: Seq<u64>)
    requires
        ns.len() < fields.len(),
        forall|i: int|
            0 <= i < ns.len() ==> number::as_u64(#[trigger] fields[i]) == Some(ns[i]),
        number::as_u64(fields[ns.len() as int]) is None,
    ensures
        total_of(ns) <= 0xffff_ffff_ffff_ffff ==> ticks_of(fields) == Ok::<
            Option<(u64, u64)>,
            TickOverflow,
        >(None),
        total_of(ns) > 0xffff_ffff_ffff_ffff ==> ticks_of(fields) == Err::<
            Option<(u64, u64)>,
            TickOverflow,
        >(TickOverflow),
{
    lemma_numbers_are(fields, ns);
}

/// The ticks are those of the first line, without the word that it starts with. Where there is
/// no such line there are none.
pub proof fn first_line_has_ticks(line: Seq<char>, rest: Seq<char>)
    requires
        !line.contains('\n'),
    ensures
        stat_of(None) == Ok::<Option<(u64, u64)>, TickOverflow>(None),
        text::words(line).len() == 0 ==> stat_of(Some(line + seq!['\n'] + rest)) == Ok::<
            Option<(u64, u64)>,
            TickOverflow,
        >(None) && stat_of(Some(line)) == Ok::<Option<(u64, u64)>, TickOverflow>(None),
        text::words(line).len() > 0 ==> stat_of(Some(line + seq!['\n'] + rest)) == ticks_of(
            text::words(line).skip(1),
        ) && stat_of(Some(line)) == ticks_of(text::words(line).skip(1)),
{
    text::lines_part_at_feed(line, rest);
    text::text_without_feed_is_a_line(line);
    text::no_text_has_no_words();
    if line.len() > 0 && line.last() == '\r' {
        let a = line.drop_last();
        text::words_part_at_space(a, '\r', Seq::empty());
        assert(a + seq!['\r'] + Seq::empty() =~= line);
        assert(text::words(line) =~= text::words(a));
    }
    if line.len() == 0 {
        assert(line =~= Seq::empty());
    }
    assert(leading_numbers(Seq::empty()) =~= Seq::empty());
    sums_add_up(Seq::empty(), 0, Seq::empty());
    if text::words(line).len() == 0 {
        assert(text::after_first(text::words(line)) =~= Seq::empty());
    }
}

/// The model is the one that the first line with a model names; without any it is a general
/// one.
pub proof fn first_model_is_taken(a: Seq<Seq<char>>, line: Seq<char>, b: Seq<Seq<char>>)
    requires
        forall|i: int|
            0 <= i < a.len() ==> !names_model(#[trigger] a[i], outside::lowered(a[i])),
    ensures
        model_of(a) == seq!['C', 'P', 'U'],
        names_model(line, outside::lowered(line)) ==> model_of(a + seq![line] + b) == model_in(
            line,
        ),
    decreases a.len(),
{
    reveal_strlit("CPU");
    assert("CPU"@ =~= seq!['C', 'P', 'U']);
    let all = a + seq![line] + b;
    if a.len() == 0 {
        assert(all[0] == line);
    } else {
        assert(all[0] == a[0]);
        assert(all.skip(1) =~= a.skip(1) + seq![line] + b);
        assert forall|i: int| 0 <= i < a.skip(1).len() implies !names_model(
            #[trigger] a.skip(1)[i],
            outside::lowered(a.skip(1)[i]),
        ) by {
            assert(a.skip(1)[i] == a[i + 1]);
        }
        first_model_is_taken(a.skip(1), line, b);
    }
}

/// A line names a model where it has a colon and starts, in lower case, with these words.
pub proof fn model_lines_are_known(line: Seq<char>, low: Seq<char>)
    ensures
        names_model(line, low) <==> line.contains(':') && low.len() >= 10 && low.take(10) == seq![
            'm',
            'o',
            'd',
            'e',
            'l',
            ' ',
            'n',
            'a',
            'm',
            'e',
        ],
        vstd::utf8::is_ascii_chars(line) ==> (names_model(line, outside::lowered(line))
            <==> line.contains(':') && line.len() >= 10 && forall|i: int|
            0 <= i < 10 ==> #[trigger] line[i] == "model name"@[i] || (i != 5 && line[i]
                as int + 32 == "model name"@[i] as int)),
{
    reveal_strlit("model name");
    let p = "model name"@;
    assert(p =~= seq!['m', 'o', 'd', 'e', 'l', ' ', 'n', 'a', 'm', 'e']);
    text::halves_need_the_character(line, ':');
    if low.len() >= 10 {
        assert(p.is_prefix_of(low) <==> low.take(10) == p);
    }
    if vstd::utf8::is_ascii_chars(line) {
        let down = outside::lowered(line);
        assert(down.len() == line.len());
        if names_model(line, down) {
            assert forall|i: int| 0 <= i < 10 implies #[trigger] line[i] == p[i] || (i != 5
                && line[i] as int + 32 == p[i] as int) by {
                assert(down[i] == p[i]);
                assert(down[i] == outside::ascii_lower(line[i]));
            }
        }
        if line.contains(':') && line.len() >= 10 && forall|i: int|
            0 <= i < 10 ==> #[trigger] line[i] == p[i] || (i != 5 && line[i] as int + 32
                == p[i] as int) {
            assert forall|i: int| 0 <= i < 10 implies p[i] == #[trigger] down[i] by {
                assert(down[i] == outside::ascii_lower(line[i]));
                assert(line[i] == p[i] || (i != 5 && line[i] as int + 32 == p[i] as int));
            }
            assert(p =~= down.subrange(0, 10));
        }
    }
}

/// A model is what stands after the colon, up to an at sign, without blank ends.
pub proof fn model_is_the_value(
    key: Seq<char>,
    l: Seq<char>,
    model: Seq<char>,
    r: Seq<char>,
    tail: Seq<char>,
)
    requires
        !key.contains(':'),
        text::blank(l),
        text::blank(r),
        model.len() > 0 ==> !text::space(model[0]) && !text::space(model.last()),
        !model.contains('@'),
    ensures
        model_in(key + seq![':'] + (l + model + r)) == model,
        model_in(key + seq![':'] + (l + model + r + seq!['@'] + tail)) == model,
{
    let v = l + model + r;
    assert(!v.contains('@')) by {
        if v.contains('@') {
            let k = choose|k: int| 0 <= k < v.len() && v[k] == '@';
            if k < l.len() {
                assert(text::space(l[k]));
            } else if k < l.len() + model.len() {
                assert(model[k - l.len()] == '@');
            } else {
                assert(text::space(r[k - l.len() - model.len()]));
            }
        }
    }
    let w = v + seq!['@'] + tail;
    text::halves_part_at_first(key, ':', v);
    text::halves_part_at_first(key, ':', w);
    text::halves_part_at_first(v, '@', tail);
    text::trimming_commutes_with_before(v, '@');
    text::trimming_commutes_with_before(w, '@');
    text::trimming_drops_blank_ends(l, model, r);
}

/// Lines are counted one by one.
pub proof fn counts_add_up(a: Seq<Seq<char>>, line: Seq<char>, b: Seq<Seq<char>>, p: Seq<char>)
    ensures
        count_prefixed(Seq::empty(), p) == 0,
        count_prefixed(seq![p + line], p) == 1,
        !p.is_prefix_of(line) ==> count_prefixed(seq![line], p) == 0,
        count_prefixed(a + b, p) == count_prefixed(a, p) + count_prefixed(b, p),
    decreases b.len(),
{
    reveal_with_fuel(count_prefixed, 2);
    assert(seq![line].drop_last() =~= Seq::empty());
    assert(seq![p + line].drop_last() =~= Seq::empty());
    assert(p =~= (p + line).subrange(0, p.len() as int));
    if b.len() == 0 {
        assert(a + b =~= a);
    } else {
        counts_add_up(a, line, b.drop_last(), p);
        assert((a + b).drop_last() =~= a + b.drop_last());
        assert((a + b).last() == b.last());
    }
}

/// There are as many processors as lines that start with that word, as 16 bits count them, and
/// one where there are none.
pub proof fn processors_are_counted(ls: Seq<Seq<char>>)
    ensures
        ({
            let n = count_prefixed(ls, seq!['p', 'r', 'o', 'c', 'e', 's', 's', 'o', 'r']);
            &&& 1 <= n <= 65535 ==> cores_of(ls) == n
            &&& n % 65536 == 0 ==> cores_of(ls) == 1
            &&& n % 65536 != 0 ==> cores_of(ls) == n % 65536
        }),
{
    reveal_strlit("processor");
    assert("processor"@ =~= seq!['p', 'r', 'o', 'c', 'e', 's', 's', 'o', 'r']);
}

/// A frequency file that holds the decimal digits of a number, with any blank text around
/// them, is read as that number, as far as 64 bits hold it; one that holds none is not read.
pub proof fn frequency_is_read(l: Seq<char>, n: nat, r: Seq<char>, s: Seq<char>)
    requires
        text::blank(l),
        text::blank(r),
    ensures
        n <= 0xffff_ffff_ffff_ffff ==> khz_of(Some(l + number::decimal(n) + r)) == Some(n as u64),
        n > 0xffff_ffff_ffff_ffff ==> khz_of(Some(l + number::decimal(n) + r)) is None,
        khz_of(Some(s)) == number::as_u64(text::trimmed(s)),
        khz_of(None) is None,
{
    number::decimal_is_read(n);
    number::lemma_decimal_spaceless(n);
    text::trimming_drops_blank_ends(l, number::decimal(n), r);
}

} // verus!
