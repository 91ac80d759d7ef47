//! Memory and swap, from `/proc/meminfo`.

use crate::number;
use crate::share::Share;
use crate::text;
use vstd::prelude::*;

verus! {

/// Memory and swap, in kB.
#[derive(Clone, Copy, Debug, PartialEq, Eq, Structural)]
pub struct RamInfo {
    /// Memory in use.
    pub used_kb: u64,
    /// Memory in all.
    pub total_kb: u64,
    /// The part of the memory that is in use.
    pub used: Share,
    /// Swap in use.
    pub swap_used_kb: u64,
    /// Swap in all.
    pub swap_total_kb: u64,
    /// The part of the swap that is in use.
    pub swap_used: Share,
}

/// The number of kB in the value of a line: its first word, or zero.
pub open spec fn amount(v: Seq<char>) -> u64 {
    number::as_u64(text::nth_or_empty(text::words(v), 0)).unwrap_or(0)
}

/// Whether the trimmed key of a line is `key`.
pub open spec fn has_key(line: Seq<char>, key: Seq<char>) -> bool {
    match text::halves(line, ':') {
        Some((k, _)) => text::trimmed(k) == key,
        None => false,
    }
}

/// The amount in a line with a key.
pub open spec fn amount_in(line: Seq<char>) -> u64 {
    match text::halves(line, ':') {
        Some((_, v)) => amount(v),
        None => 0,
    }
}

/// Whether a line says one of the amounts that are shown.
pub open spec fn counts(line: Seq<char>) -> bool {
    ||| has_key(line, "MemTotal"@)
    ||| has_key(line, "MemAvailable"@)
    ||| has_key(line, "SwapTotal"@)
    ||| has_key(line, "SwapFree"@)
}

/// Lines of `ls` with the key `key` say the same amount, as they do where there is at most one.
pub open spec fn one_amount(ls: Seq<Seq<char>>, key: Seq<char>) -> bool {
    forall|i: int, j: int|
        0 <= i < ls.len() && 0 <= j < ls.len() && has_key(#[trigger] ls[i], key) && has_key(
            #[trigger] ls[j],
            key,
        ) ==> amount_in(ls[i]) == amount_in(ls[j])
}

/// The amount in the last line of `ls` whose trimmed key is `key`; zero where there is none.
pub open spec fn last_amount(ls: Seq<Seq<char>>, key: Seq<char>) -> u64
    decreases ls.len(),
{
    if ls.len() == 0 {
        0
    } else {
        match text::halves(ls.last(), ':') {
            Some((k, v)) if text::trimmed(k) == key => amount(v),
            _ => last_amount(ls.drop_last(), key),
        }
    }
}

/// The part that `used` is of `total`; of a total of zero, the part of one.
pub open spec fn share_of(used: u64, total: u64) -> Share {
    Share {
        part: used,
        whole: if total == 0 {
            1
        } else {
            total
        },
    }
}

/// What lines of `/proc/meminfo` say.
pub open spec fn ram_of(ls: Seq<Seq<char>>) -> RamInfo {
    let total = last_amount(ls, "MemTotal"@);
    let swap_total = last_amount(ls, "SwapTotal"@);
    let used = number::minus(total, last_amount(ls, "MemAvailable"@));
    let swap_used = number::minus(swap_total, last_amount(ls, "SwapFree"@));
    RamInfo {
        used_kb: used,
        total_kb: total,
        used: share_of(used, total),
        swap_used_kb: swap_used,
        swap_total_kb: swap_total,
        swap_used: share_of(swap_used, swap_total),
    }
}

/// Reads the first number in the value of a line.
fn read_amount(v: &[char]) -> (r: u64)
    ensures
        r == amount(v@),
{
    let ws = text::split_words(v);
    number::parse_u64(text::column(&ws, 0)).unwrap_or(0)
}

/// The part that `used` is of `total`.
fn share(used: u64, total: u64) -> (r: Share)
    ensures
        r == share_of(used, total),
{
    Share {
        part: used,
        whole: if total == 0 {
            1
        } else {
            total
        },
    }
}

/// Reads `/proc/meminfo`. A missing file and missing lines count as zero.
pub fn read_ram(meminfo: Option<&str>) -> (r: RamInfo)
    ensures
        r == ram_of(text::lines_of(meminfo.deep_view())),
        r.used.wf(),
        r.swap_used.wf(),
{
    let mut total: u64 = 0;
    let mut avail: u64 = 0;
    let mut swap_total: u64 = 0;
    let mut swap_free: u64 = 0;
    if let Some(data) = meminfo {
        let all: Vec<char> = text::chars_of(data);
        let ls = text::split_lines(&all);
        let ghost seen = text::lines(data@);
        let mut i: usize = 0;
        proof {
            reveal_strlit("MemTotal");
            reveal_strlit("MemAvailable");
            reveal_strlit("SwapTotal");
            reveal_strlit("SwapFree");
            assert("MemTotal"@.len() == 8 && "MemAvailable"@.len() == 12 && "SwapTotal"@.len() == 9
                && "SwapFree"@.len() == 8);
            assert("MemTotal"@[0] == 'M' && "SwapFree"@[0] == 'S');
            assert(seen.take(0) =~= Seq::empty());
        }
        while i < ls.len()
            invariant
                seen == text::contents(ls@),
                i <= ls@.len(),
                "MemTotal"@.len() == 8,
                "MemAvailable"@.len() == 12,
                "SwapTotal"@.len() == 9,
                "SwapFree"@.len() == 8,
                "MemTotal"@[0] == 'M',
                "SwapFree"@[0] == 'S',
                total == last_amount(seen.take(i as int), "MemTotal"@),
                avail == last_amount(seen.take(i as int), "MemAvailable"@),
                swap_total == last_amount(seen.take(i as int), "SwapTotal"@),
                swap_free == last_amount(seen.take(i as int), "SwapFree"@),
            decreases ls@.len() - i,
        {
            proof {
                assert(seen.take(i + 1).last() == ls@[i as int]@);
                assert(seen.take(i + 1).drop_last() =~= seen.take(i as int));
            }
            if let Some((k, v)) = text::split_first(ls[i], ':') {
                let kb: u64 = read_amount(v);
                let key = text::trim(k);
                if text::same_text(key, "MemTotal") {
                    total = kb;
                } else if text::same_text(key, "MemAvailable") {
                    avail = kb;
                } else if text::same_text(key, "SwapTotal") {
                    swap_total = kb;
                } else if text::same_text(key, "SwapFree") {
                    swap_free = kb;
                }
            }
            i = i + 1;
        }
        assert(seen.take(i as int) =~= seen);
    }
    let used: u64 = total.saturating_sub(avail);
    let swap_used: u64 = swap_total.saturating_sub(swap_free);
    RamInfo {
        used_kb: used,
        total_kb: total,
        used: share(used, total),
        swap_used_kb: swap_used,
        swap_total_kb: swap_total,
        swap_used: share(swap_used, swap_total),
    }
}

/// Memory in use is never more than there is, nor is swap, whatever the file says.
pub proof fn use_is_bounded(ls: Seq<Seq<char>>)
    ensures
        ram_of(ls).used_kb <= ram_of(ls).total_kb,
        ram_of(ls).swap_used_kb <= ram_of(ls).swap_total_kb,
        ram_of(ls).used.wf(),
        ram_of(ls).swap_used.wf(),
{
}

/// Where all lines of a key say one amount, that is the amount.
proof fn lemma_one_amount(ls: Seq<Seq<char>>, key: Seq<char>, n: u64)
    requires
        forall|i: int| 0 <= i < ls.len() && has_key(#[trigger] ls[i], key) ==> amount_in(ls[i]) == n,
    ensures
        last_amount(ls, key) == n || last_amount(ls, key) == 0,
        (exists|i: int| 0 <= i < ls.len() && has_key(#[trigger] ls[i], key)) ==> last_amount(
            ls,
            key,
        ) == n,
        !(exists|i: int| 0 <= i < ls.len() && has_key(#[trigger] ls[i], key)) ==> last_amount(
            ls,
            key,
        ) == 0,
    decreases ls.len(),
{
    if ls.len() > 0 {
        let t = ls.drop_last();
        let m = ls.len() - 1;
        assert forall|i: int| 0 <= i < t.len() && has_key(#[trigger] t[i], key) implies amount_in(
            t[i],
        ) == n by {
            assert(ls[i] == t[i]);
        }
        lemma_one_amount(t, key, n);
        if has_key(ls[m], key) {
            assert(amount_in(ls[m]) == n);
        } else {
            if exists|i: int| 0 <= i < ls.len() && has_key(#[trigger] ls[i], key) {
                let i = choose|i: int| 0 <= i < ls.len() && has_key(#[trigger] ls[i], key);
                assert(t[i] == ls[i]);
            }
            if exists|i: int| 0 <= i < t.len() && has_key(#[trigger] t[i], key) {
                let i = choose|i: int| 0 <= i < t.len() && has_key(#[trigger] t[i], key);
                assert(ls[i] == t[i]);
            }
        }
    }
}

/// Permuted lines give the same amount for a key whose lines say one amount.
proof fn lemma_permuted_amount(a: Seq<Seq<char>>, b: Seq<Seq<char>>, key: Seq<char>)
    requires
        a.to_multiset() == b.to_multiset(),
        one_amount(a, key),
    ensures
        last_amount(a, key) == last_amount(b, key),
{
    if exists|i: int| 0 <= i < a.len() && has_key(#[trigger] a[i], key) {
        let i = choose|i: int| 0 <= i < a.len() && has_key(#[trigger] a[i], key);
        let n = amount_in(a[i]);
        lemma_one_amount(a, key, n);
        assert forall|j: int| 0 <= j < b.len() && has_key(#[trigger] b[j], key) implies amount_in(
            b[j],
        ) == n by {
            assert(b.contains(b[j]));
            text::lemma_permuted_contains(b, a, b[j]);
            let k = choose|k: int| 0 <= k < a.len() && a[k] == b[j];
            assert(has_key(a[k], key));
        }
        assert(a.contains(a[i]));
        text::lemma_permuted_contains(a, b, a[i]);
        let j = choose|j: int| 0 <= j < b.len() && b[j] == a[i];
        assert(has_key(b[j], key));
        lemma_one_amount(b, key, n);
    } else {
        lemma_one_amount(a, key, 0);
        assert forall|j: int| 0 <= j < b.len() implies !has_key(#[trigger] b[j], key) by {
            assert(b.contains(b[j]));
            text::lemma_permuted_contains(b, a, b[j]);
            let k = choose|k: int| 0 <= k < a.len() && a[k] == b[j];
            assert(!has_key(a[k], key));
        }
        lemma_one_amount(b, key, 0);
    }
}

/// The order of the lines has no influence, where no key that counts is said twice with
/// different amounts.
pub proof fn line_order_is_irrelevant(a: Seq<Seq<char>>, b: Seq<Seq<char>>)
    requires
        a.to_multiset() == b.to_multiset(),
        one_amount(a, "MemTotal"@),
        one_amount(a, "MemAvailable"@),
        one_amount(a, "SwapTotal"@),
        one_amount(a, "SwapFree"@),
    ensures
        ram_of(a) == ram_of(b),
{
    lemma_permuted_amount(a, b, "MemTotal"@);
    lemma_permuted_amount(a, b, "MemAvailable"@);
    lemma_permuted_amount(a, b, "SwapTotal"@);
    lemma_permuted_amount(a, b, "SwapFree"@);
}

/// A line of another key does not change an amount.
proof fn lemma_other_line(ls: Seq<Seq<char>>, i: int, line: Seq<char>, key: Seq<char>)
    requires
        0 <= i <= ls.len(),
        !has_key(line, key),
    ensures
        last_amount(ls.insert(i, line), key) == last_amount(ls, key),
    decreases ls.len(),
{
    let more = ls.insert(i, line);
    if i == ls.len() {
        assert(more.drop_last() =~= ls);
        assert(more.last() == line);
    } else {
        assert(more.last() == ls.last());
        assert(more.drop_last() =~= ls.drop_last().insert(i, line));
        lemma_other_line(ls.drop_last(), i, line, key);
    }
}

/// A line with a key that does not count, or without a colon, has no influence, wherever it
/// is put in or taken out.
pub proof fn other_lines_are_irrelevant(ls: Seq<Seq<char>>, i: int, line: Seq<char>)
    requires
        0 <= i <= ls.len(),
        !counts(line),
    ensures
        ram_of(ls.insert(i, line)) == ram_of(ls),
{
    lemma_other_line(ls, i, line, "MemTotal"@);
    lemma_other_line(ls, i, line, "MemAvailable"@);
    lemma_other_line(ls, i, line, "SwapTotal"@);
    lemma_other_line(ls, i, line, "SwapFree"@);
}

/// Line `i` of `ls` is the last one with the key `key`, and the first word of its value is the
/// decimal digits of `n`.
pub open spec fn says(ls: Seq<Seq<char>>, i: int, key: Seq<char>, n: nat) -> bool {
    &&& 0 <= i < ls.len()
    &&& text::halves(ls[i], ':') matches Some((k, v)) && text::trimmed(k) == key && text::words(
        v,
    ).len() > 0 && text::words(v)[0] == number::decimal(n)
    &&& forall|j: int|
        i < j < ls.len() ==> (text::halves(#[trigger] ls[j], ':') matches Some((k, _))
            ==> text::trimmed(k) != key)
}

/// The last line with a key decides its amount: the number that the first word of its value
/// is, or zero where it is none.
pub proof fn last_line_decides(ls: Seq<Seq<char>>, i: int, key: Seq<char>)
    requires
        0 <= i < ls.len(),
        text::halves(ls[i], ':') is Some,
        text::trimmed((text::halves(ls[i], ':')->0).0) == key,
        forall|j: int|
            i < j < ls.len() ==> (text::halves(#[trigger] ls[j], ':') matches Some((k, _))
                ==> text::trimmed(k) != key),
    ensures
        ({
            let ws = text::words((text::halves(ls[i], ':')->0).1);
            &&& ws.len() == 0 ==> last_amount(ls, key) == 0
            &&& ws.len() > 0 && number::as_u64(ws[0]) is None ==> last_amount(ls, key) == 0
            &&& ws.len() > 0 ==> (number::as_u64(ws[0]) matches Some(n) ==> last_amount(ls, key)
                == n)
        }),
    decreases ls.len(),
{
    if i < ls.len() - 1 {
        let t = ls.drop_last();
        assert forall|j: int| i < j < t.len() implies (text::halves(#[trigger] t[j], ':') matches Some(
            (k, _),
        ) ==> text::trimmed(k) != key) by {
            assert(t[j] == ls[j]);
        }
        last_line_decides(t, i, key);
        assert(ls.last() == ls[ls.len() - 1]);
    }
}

/// The last line with a key says its amount, in kB, where 64 bits hold it.
pub proof fn last_line_says_amount(ls: Seq<Seq<char>>, i: int, key: Seq<char>, n: nat)
    requires
        says(ls, i, key, n),
    ensures
        n <= 0xffff_ffff_ffff_ffff ==> last_amount(ls, key) == n,
        n > 0xffff_ffff_ffff_ffff ==> last_amount(ls, key) == 0,
{
    number::decimal_is_read(n);
    last_line_decides(ls, i, key);
}

/// Without a line for a key its amount is zero.
pub proof fn silence_is_zero(ls: Seq<Seq<char>>, key: Seq<char>)
    requires
        forall|j: int|
            0 <= j < ls.len() ==> (text::halves(#[trigger] ls[j], ':') matches Some((k, _))
                ==> text::trimmed(k) != key),
    ensures
        last_amount(ls, key) == 0,
    decreases ls.len(),
{
    if ls.len() > 0 {
        let t = ls.drop_last();
        assert forall|j: int| 0 <= j < t.len() implies (text::halves(#[trigger] t[j], ':') matches Some(
            (k, _),
        ) ==> text::trimmed(k) != key) by {
            assert(t[j] == ls[j]);
        }
        silence_is_zero(t, key);
        assert(ls.last() == ls[ls.len() - 1]);
    }
}

/// A line of a key, a colon, blank text, digits and whatever whitespace parts from them says
/// what the digits denote, for that key.
pub proof fn lines_hold_amounts(
    key: Seq<char>,
    l: Seq<char>,
    n: nat,
    r: Seq<char>,
)
    requires
        !key.contains(':'),
        text::trimmed(key) == key,
        text::blank(l),
        r.len() > 0 ==> text::space(r[0]),
    ensures
        says(seq![key + seq![':'] + (l + number::decimal(n) + r)], 0, key, n),
{
    text::halves_part_at_first(key, ':', l + number::decimal(n) + r);
    number::lemma_decimal_spaceless(n);
    text::first_word_is_first(l, number::decimal(n), r);
}

/// Memory that is in use and memory that is available make up the whole; memory in use is its
/// own part of the whole.
pub proof fn used_and_available_make_total(
    ls: Seq<Seq<char>>,
    i: int,
    total: nat,
    j: int,
    available: nat,
)
    requires
        says(ls, i, "MemTotal"@, total),
        says(ls, j, "MemAvailable"@, available),
        available <= total <= 0xffff_ffff_ffff_ffff,
    ensures
        ram_of(ls).total_kb == total,
        ram_of(ls).used_kb + available == total,
        ram_of(ls).used.part == ram_of(ls).used_kb,
        total > 0 ==> ram_of(ls).used.whole == total,
{
    last_line_says_amount(ls, i, "MemTotal"@, total);
    last_line_says_amount(ls, j, "MemAvailable"@, available);
}

/// Swap that is in use and swap that is free make up the whole; swap in use is its own part of
/// the whole.
pub proof fn used_and_free_make_swap(
    ls: Seq<Seq<char>>,
    i: int,
    total: nat,
    j: int,
    free: nat,
)
    requires
        says(ls, i, "SwapTotal"@, total),
        says(ls, j, "SwapFree"@, free),
        free <= total <= 0xffff_ffff_ffff_ffff,
    ensures
        ram_of(ls).swap_total_kb == total,
        ram_of(ls).swap_used_kb + free == total,
        ram_of(ls).swap_used.part == ram_of(ls).swap_used_kb,
        total > 0 ==> ram_of(ls).swap_used.whole == total,
{
    last_line_says_amount(ls, i, "SwapTotal"@, total);
    last_line_says_amount(ls, j, "SwapFree"@, free);
}

/// The four amounts are taken as they are said; what is not in use of a whole is what is said
/// to be left of it, and more left than there is counts as none in use. Each part is out of
/// its whole, or out of one where there is nothing.
pub proof fn amounts_add_up(ls: Seq<Seq<char>>)
    ensures
        ({
            let total = last_amount(ls, "MemTotal"@);
            let left = last_amount(ls, "MemAvailable"@);
            &&& ram_of(ls).total_kb == total
            &&& left <= total ==> ram_of(ls).used_kb + left == total
            &&& left >= total ==> ram_of(ls).used_kb == 0
            &&& ram_of(ls).used.part == ram_of(ls).used_kb
            &&& total == 0 ==> ram_of(ls).used.whole == 1
            &&& total > 0 ==> ram_of(ls).used.whole == total
        }),
        ({
            let total = last_amount(ls, "SwapTotal"@);
            let left = last_amount(ls, "SwapFree"@);
            &&& ram_of(ls).swap_total_kb == total
            &&& left <= total ==> ram_of(ls).swap_used_kb + left == total
            &&& left >= total ==> ram_of(ls).swap_used_kb == 0
            &&& ram_of(ls).swap_used.part == ram_of(ls).swap_used_kb
            &&& total == 0 ==> ram_of(ls).swap_used.whole == 1
            &&& total > 0 ==> ram_of(ls).swap_used.whole == total
        }),
{
}

} // verus!
