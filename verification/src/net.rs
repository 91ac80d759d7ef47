//! The network, from the routing table, `ip addr` and the counters of an interface.

use crate::number;
use crate::outside;
use crate::text;
use vstd::prelude::*;

verus! {

/// Whether a row of the routing table is a default route that is up.
pub open spec fn default_route(row: Seq<char>) -> bool {
    let columns = text::words(row);
    text::nth_or_empty(columns, 1) == "00000000"@ && text::nth_or_empty(columns, 3) == "0003"@
}

/// The metric of a row; zero where it cannot be read.
pub open spec fn metric(row: Seq<char>) -> u32 {
    number::as_u32(text::nth_or_empty(text::words(row), 6)).unwrap_or(0)
}

/// The interface of a row.
pub open spec fn row_iface(row: Seq<char>) -> Seq<char> {
    text::nth_or_empty(text::words(row), 0)
}

/// Row `i` is the default route of `rows` with the least metric, and the last such.
pub open spec fn best_route(rows: Seq<Seq<char>>, i: int) -> bool {
    &&& 0 <= i < rows.len()
    &&& default_route(rows[i])
    &&& forall|j: int|
        0 <= j < rows.len() && default_route(#[trigger] rows[j]) ==> metric(rows[i]) <= metric(
            rows[j],
        ) && (i < j ==> metric(rows[i]) < metric(rows[j]))
}

/// The interface of the best default route of `rows`, or `lo`.
pub open spec fn iface_of(rows: Seq<Seq<char>>) -> Seq<char> {
    if exists|i: int| best_route(rows, i) {
        row_iface(rows[choose|i: int| best_route(rows, i)])
    } else {
        "lo"@
    }
}

/// The rows of a routing table that may be missing, below its heading.
pub open spec fn rows_of(route: Option<Seq<char>>) -> Seq<Seq<char>> {
    text::after_first(text::lines_of(route))
}

/// There is only one best route.
proof fn lemma_best_is_one(rows: Seq<Seq<char>>, i: int, j: int)
    requires
        best_route(rows, i),
        best_route(rows, j),
    ensures
        i == j,
{
    assert(default_route(rows[i]) && default_route(rows[j]));
}

/// A default route that is at most the best so far becomes the best.
proof fn lemma_best_step(rows: Seq<Seq<char>>, best: int, n: int)
    requires
        0 <= n < rows.len(),
        best_route(rows.take(n), best) || (forall|j: int|
            0 <= j < n ==> !default_route(#[trigger] rows[j])),
    ensures
        default_route(rows[n]) && (!best_route(rows.take(n), best) || metric(rows[n]) <= metric(
            rows[best],
        )) ==> best_route(rows.take(n + 1), n),
        best_route(rows.take(n), best) && (!default_route(rows[n]) || metric(rows[n]) > metric(
            rows[best],
        )) ==> best_route(rows.take(n + 1), best),
{
    let a = rows.take(n);
    let b = rows.take(n + 1);
    assert forall|j: int| 0 <= j < n implies #[trigger] b[j] == a[j] && rows[j] == a[j] by {}
    if default_route(rows[n]) && (!best_route(a, best) || metric(rows[n]) <= metric(rows[best])) {
        assert(b[n] == rows[n]);
        assert forall|j: int| 0 <= j < b.len() && default_route(#[trigger] b[j]) implies metric(
            b[n],
        ) <= metric(b[j]) by {
            if j < n {
                assert(b[j] == a[j] && rows[j] == a[j]);
                assert(default_route(a[j]));
            }
        }
    }
    if best_route(a, best) && (!default_route(rows[n]) || metric(rows[n]) > metric(rows[best])) {
        assert(b[best] == a[best] && rows[best] == a[best]);
        assert forall|j: int| 0 <= j < b.len() && default_route(#[trigger] b[j]) implies metric(
            b[best],
        ) <= metric(b[j]) && (best < j ==> metric(b[best]) < metric(b[j])) by {
            if j < n {
                assert(b[j] == a[j] && rows[j] == a[j]);
                assert(default_route(a[j]));
            } else {
                assert(b[n] == rows[n]);
            }
        }
    }
}

/// Finds the interface of the best default route: the one with the least metric, and of
/// several the last. Without any it is `lo`.
pub fn default_iface(route: Option<&str>) -> (r: String)
    ensures
        r@ == iface_of(rows_of(route.deep_view())),
{
    let ghost rows = rows_of(route.deep_view());
    let mut best_iface: String = "lo".to_owned();
    let mut best_metric: u32 = u32::MAX;
    let ghost mut best: int = -1;
    if let Some(data) = route {
        let all: Vec<char> = text::chars_of(data);
        let ls = text::split_lines(&all);
        let mut i: usize = 1;
        while i < ls.len()
            invariant
                rows == text::after_first(text::contents(ls@)),
                1 <= i,
                i <= ls@.len() || (i == 1 && ls@.len() == 0),
                best >= 0 ==> best_route(rows.take(i - 1), best) && best_metric == metric(
                    rows[best],
                ) && best_iface@ == row_iface(rows[best]),
                best < 0 ==> best_metric == u32::MAX && best_iface@ == "lo"@ && (forall|j: int|
                    0 <= j < i - 1 ==> !default_route(#[trigger] rows[j])),
            decreases ls@.len() - i,
        {
            proof {
                assert(rows[i - 1] == ls@[i as int]@);
                lemma_best_step(rows, best, i - 1);
            }
            let columns = text::split_words(ls[i]);
            let iface = text::column(&columns, 0);
            let m: u32 = number::parse_u32(text::column(&columns, 6)).unwrap_or(0);
            if text::same_text(text::column(&columns, 1), "00000000") && text::same_text(
                text::column(&columns, 3),
                "0003",
            ) && m <= best_metric {
                best_metric = m;
                best_iface = text::text_of(iface);
                proof {
                    best = i - 1;
                }
            }
            i = i + 1;
        }
        assert(rows.take(i - 1) =~= rows);
    }
    proof {
        if best >= 0 {
            assert(best_route(rows, best));
            lemma_best_is_one(rows, best, choose|i: int| best_route(rows, i));
        } else {
            assert forall|i: int| !best_route(rows, i) by {
                if 0 <= i < rows.len() {
                    assert(!default_route(rows[i]));
                }
            }
        }
    }
    best_iface
}

/// One number of an IPv4 address: up to 255, without leading zeros.
pub open spec fn octet(s: Seq<char>) -> bool {
    number::numeral(s) && s.len() <= 3 && number::value(s) <= 255 && (s[0] == '0' ==> s.len() == 1)
}

/// An IPv4 address: four such numbers with dots between them.
pub open spec fn ipv4(s: Seq<char>) -> bool {
    let parts = text::pieces(s, '.');
    parts.len() == 4 && octet(parts[0]) && octet(parts[1]) && octet(parts[2]) && octet(parts[3])
}

/// A word that holds an address with a prefix length, such as `10.0.0.2/24`.
pub open spec fn address_word(w: Seq<char>) -> bool {
    w.contains('.') && w.contains('/') && ipv4(text::before(w, '/'))
}

/// The address in the first of `ws` that holds one.
pub open spec fn first_address(ws: Seq<Seq<char>>) -> Option<Seq<char>>
    decreases ws.len(),
{
    if ws.len() == 0 {
        None
    } else if address_word(ws[0]) {
        Some(text::before(ws[0], '/'))
    } else {
        first_address(ws.skip(1))
    }
}

/// Whether `s` is one number of an IPv4 address.
fn is_octet(s: &[char]) -> (r: bool)
    ensures
        r == octet(s@),
{
    if s.len() == 0 || s.len() > 3 || (s[0] == '0' && s.len() > 1) || s[0] == '+' {
        if s.len() > 0 && s[0] == '+' {
            assert(!number::digit(s@[0]));
        }
        return false;
    }
    match number::parse_u8(s) {
        Some(_) => true,
        None => false,
    }
}

/// Whether `s` is an IPv4 address.
pub fn is_ipv4(s: &[char]) -> (r: bool)
    ensures
        r == ipv4(s@),
{
    let parts = text::split_at_each(s, '.');
    assert(text::contents(parts@).len() == parts@.len());
    if parts.len() != 4 {
        return false;
    }
    assert(text::contents(parts@)[0] == parts@[0]@ && text::contents(parts@)[1] == parts@[1]@
        && text::contents(parts@)[2] == parts@[2]@ && text::contents(parts@)[3] == parts@[3]@);
    is_octet(parts[0]) && is_octet(parts[1]) && is_octet(parts[2]) && is_octet(parts[3])
}

/// Finds the first address with a prefix length in what `ip -4 -o addr` prints.
pub fn find_ipv4(listing: &str) -> (r: Option<String>)
    ensures
        match r {
            Some(ip) => first_address(text::words(listing@)) == Some(ip@),
            None => first_address(text::words(listing@)) is None,
        },
{
    let all: Vec<char> = text::chars_of(listing);
    let ws = text::split_words(&all);
    let ghost seen = text::contents(ws@);
    let mut i: usize = 0;
    assert(seen.skip(0) =~= seen);
    while i < ws.len()
        invariant
            seen == text::contents(ws@),
            seen == text::words(listing@),
            i <= ws@.len(),
            first_address(seen) == first_address(seen.skip(i as int)),
        decreases ws@.len() - i,
    {
        proof {
            assert(seen.skip(i as int)[0] == ws@[i as int]@);
            assert(seen.skip(i as int).skip(1) =~= seen.skip(i + 1));
        }
        if text::holds(ws[i], '.') && text::holds(ws[i], '/') {
            let ip = text::take_before(ws[i], '/');
            if is_ipv4(ip) {
                return Some(text::text_of(ip));
            }
        }
        i = i + 1;
    }
    None
}

/// The address in what `ip -4 -o addr show dev` printed, where it could be run.
pub open spec fn address_of(output: Option<Vec<u8>>) -> Option<Seq<char>> {
    match output {
        Some(bytes) => first_address(text::words(outside::decoded(bytes@))),
        None => None,
    }
}

/// Reads the address of an interface out of what `ip -4 -o addr show dev` printed.
pub fn iface_ipv4(output: &Option<Vec<u8>>) -> (r: Option<String>)
    ensures
        match r {
            Some(ip) => address_of(*output) == Some(ip@),
            None => address_of(*output) is None,
        },
{
    match output {
        Some(bytes) => find_ipv4(outside::utf8_lossy(bytes).as_str()),
        None => None,
    }
}

/// The default interface and its address; the address is empty where there is none.
pub fn default_iface_and_ip(route: Option<&str>, output: &Option<Vec<u8>>) -> (r: (String, String))
    ensures
        r.0@ == iface_of(rows_of(route.deep_view())),
        r.1@ == address_of(*output).unwrap_or(Seq::empty()),
{
    let ip: String = match iface_ipv4(output) {
        Some(ip) => ip,
        None => String::new(),
    };
    (default_iface(route), ip)
}

/// The count in a counter file; zero where it cannot be read.
pub open spec fn count_in(file: Option<Seq<char>>) -> u64 {
    match file {
        Some(s) => number::as_u64(text::trimmed(s)).unwrap_or(0),
        None => 0,
    }
}

/// Reads one counter file.
fn read_count(file: Option<&str>) -> (r: u64)
    ensures
        r == count_in(file.deep_view()),
{
    match file {
        Some(s) => number::parse_u64(text::trim(&text::chars_of(s))).unwrap_or(0),
        None => 0,
    }
}

/// Reads the bytes that an interface received and sent.
pub fn iface_byte_counters(rx: Option<&str>, tx: Option<&str>) -> (r: (u64, u64))
    ensures
        r == (count_in(rx.deep_view()), count_in(tx.deep_view())),
{
    (read_count(rx), read_count(tx))
}

/// An address that is shown is an IPv4 address.
pub proof fn shown_address_is_ipv4(ws: Seq<Seq<char>>)
    ensures
        first_address(ws) matches Some(ip) ==> ipv4(ip),
    decreases ws.len(),
{
    if ws.len() > 0 {
        shown_address_is_ipv4(ws.skip(1));
    }
}

/// A table without default routes gives the loopback interface, and one with some gives the
/// interface of a route of least metric.
pub proof fn default_iface_is_best(rows: Seq<Seq<char>>)
    ensures
        (forall|i: int| 0 <= i < rows.len() ==> !default_route(#[trigger] rows[i])) ==> iface_of(
            rows,
        ) == "lo"@,
        (exists|i: int| 0 <= i < rows.len() && default_route(#[trigger] rows[i])) ==> exists|i: int|
            best_route(rows, i) && iface_of(rows) == row_iface(rows[i]),
{
    if exists|i: int| 0 <= i < rows.len() && default_route(#[trigger] rows[i]) {
        lemma_best_exists(rows);
        let i = choose|i: int| best_route(rows, i);
        assert(best_route(rows, i) && iface_of(rows) == row_iface(rows[i]));
    }
}

/// Where there is a default route, one is the best.
proof fn lemma_best_exists(rows: Seq<Seq<char>>)
    requires
        exists|i: int| 0 <= i < rows.len() && default_route(#[trigger] rows[i]),
    ensures
        exists|i: int| best_route(rows, i),
    decreases rows.len(),
{
    let n = rows.len() - 1;
    let before = rows.take(n);
    assert(rows.take(n + 1) =~= rows);
    if exists|i: int| 0 <= i < n && default_route(#[trigger] rows[i]) {
        let i = choose|i: int| 0 <= i < n && default_route(#[trigger] rows[i]);
        assert(before[i] == rows[i]);
        lemma_best_exists(before);
        let best = choose|i: int| best_route(before, i);
        assert(before[best] == rows[best]);
        lemma_best_step(rows, best, n);
        if default_route(rows[n]) && metric(rows[n]) <= metric(rows[best]) {
            assert(best_route(rows, n));
        } else {
            assert(best_route(rows, best));
        }
    } else {
        lemma_best_step(rows, -1, n);
        assert(best_route(rows, n));
    }
}

/// The default interface has a name without whitespace, which a cache file can hold.
pub proof fn default_iface_is_a_word(rows: Seq<Seq<char>>)
    ensures
        iface_of(rows).len() > 0,
        text::spaceless(iface_of(rows)),
{
    reveal_strlit("lo");
    reveal_strlit("00000000");
    if exists|i: int| best_route(rows, i) {
        let i = choose|i: int| best_route(rows, i);
        let columns = text::words(rows[i]);
        text::lemma_words(rows[i]);
        assert(columns.len() > 1);
        assert(columns[0].len() > 0 && text::spaceless(columns[0]));
    }
}

/// A counter file that holds the decimal digits of a number, with any blank text around them,
/// is read as that number, as far as 64 bits hold it.
pub proof fn counter_is_read(l: Seq<char>, n: nat, r: Seq<char>)
    requires
        text::blank(l),
        text::blank(r),
    ensures
        n <= 0xffff_ffff_ffff_ffff ==> count_in(Some(l + number::decimal(n) + r)) == n,
        n <= 0xffff_ffff_ffff_ffff ==> count_in(Some(number::decimal(n))) == n,
        n <= 0xffff_ffff_ffff_ffff ==> count_in(Some(number::decimal(n).push('\n'))) == n,
        n > 0xffff_ffff_ffff_ffff ==> count_in(Some(l + number::decimal(n) + r)) == 0,
{
    let d = number::decimal(n);
    number::decimal_is_read(n);
    number::lemma_decimal_spaceless(n);
    text::trimming_drops_blank_ends(l, d, r);
    text::trimming_drops_blank_ends(Seq::empty(), d, Seq::empty());
    text::trimming_drops_blank_ends(Seq::empty(), d, seq!['\n']);
    assert(Seq::empty() + d + Seq::empty() =~= d);
    assert(Seq::empty() + d + seq!['\n'] =~= d.push('\n'));
}

/// A counter file is read as the number in it, and as zero where it is missing or holds none.
pub proof fn other_counters_are_zero(s: Seq<char>)
    ensures
        count_in(None) == 0,
        number::as_u64(text::trimmed(s)) is None ==> count_in(Some(s)) == 0,
        number::as_u64(text::trimmed(s)) matches Some(n) ==> count_in(Some(s)) == n,
{
}

/// A row has the interface first, the destination second, the flags fourth and the metric
/// seventh; a default route goes to nowhere in particular and is up, through a gateway.
pub proof fn route_columns_are_read(row: Seq<char>, n: nat)
    ensures
        default_route(row) <==> text::words(row).len() > 3 && text::words(row)[1] == seq![
            '0',
            '0',
            '0',
            '0',
            '0',
            '0',
            '0',
            '0',
        ] && text::words(row)[3] == seq!['0', '0', '0', '3'],
        text::words(row).len() > 6 && text::words(row)[6] == number::decimal(n) && n <= 0xffff_ffff
            ==> metric(row) == n,
        text::words(row).len() > 6 ==> (number::as_u32(text::words(row)[6]) matches Some(m)
            ==> metric(row) == m),
        text::words(row).len() <= 6 || number::as_u32(text::words(row)[6]) is None ==> metric(row)
            == 0,
        text::words(row).len() > 0 ==> row_iface(row) == text::words(row)[0],
{
    reveal_strlit("00000000");
    reveal_strlit("0003");
    assert("00000000"@ =~= seq!['0', '0', '0', '0', '0', '0', '0', '0']);
    assert("0003"@ =~= seq!['0', '0', '0', '3']);
    number::decimal_is_read(n);
}

/// The default interface is that of the default route with the least metric, the last of
/// several; without a default route it is the loopback interface.
pub proof fn least_metric_wins(rows: Seq<Seq<char>>, i: int)
    ensures
        0 <= i < rows.len() && default_route(rows[i]) && (forall|j: int|
            0 <= j < rows.len() && j != i && default_route(#[trigger] rows[j]) ==> metric(rows[i])
                < metric(rows[j]) || (j < i && metric(rows[i]) == metric(rows[j]))) ==> iface_of(
            rows,
        ) == text::words(rows[i])[0],
        (forall|j: int| 0 <= j < rows.len() ==> !default_route(#[trigger] rows[j])) ==> iface_of(
            rows,
        ) == seq!['l', 'o'],
{
    reveal_strlit("lo");
    assert("lo"@ =~= seq!['l', 'o']);
    default_iface_is_best(rows);
    if 0 <= i < rows.len() && default_route(rows[i]) && (forall|j: int|
        0 <= j < rows.len() && j != i && default_route(#[trigger] rows[j]) ==> metric(rows[i])
            < metric(rows[j]) || (j < i && metric(rows[i]) == metric(rows[j]))) {
        assert(best_route(rows, i));
        lemma_best_is_one(rows, i, choose|k: int| best_route(rows, k));
        route_columns_are_read(rows[i], 0);
    }
}

/// The rows of a table are the lines below its first one.
pub proof fn heading_is_skipped(heading: Seq<char>, body: Seq<char>)
    requires
        !heading.contains('\n'),
    ensures
        rows_of(Some(heading + seq!['\n'] + body)) == text::lines(body),
        rows_of(Some(heading)) == Seq::<Seq<char>>::empty(),
        rows_of(None) == Seq::<Seq<char>>::empty(),
{
    text::lines_part_at_feed(heading, body);
    text::text_without_feed_is_a_line(heading);
    let all = text::lines(heading + seq!['\n'] + body);
    assert(text::after_first(all) =~= text::lines(body));
    assert(text::after_first(text::lines(heading)) =~= Seq::empty());
}

/// A number of an address is the decimal digits of one up to 255.
proof fn lemma_octet(s: Seq<char>, n: nat)
    ensures
        n <= 255 ==> octet(number::decimal(n)) && !number::decimal(n).contains('.')
            && !number::decimal(n).contains('/'),
        octet(s) ==> number::value(s) >= 0 && s == number::decimal(number::value(s) as nat),
{
    number::decimal_is_the_numeral(n, s);
    number::lemma_decimal(n);
    if n <= 255 {
        reveal_with_fuel(number::decimal, 3);
        assert(number::decimal(n).len() <= 3);
    }
    if octet(s) {
        number::lemma_value_grows(s, s.len() as int);
        assert(s.take(s.len() as int) =~= s);
        number::decimal_is_the_numeral(number::value(s) as nat, s);
    }
}

/// An address is the decimal digits of four numbers up to 255 with dots between them.
pub proof fn addresses_are_four_numbers(s: Seq<char>, a: nat, b: nat, c: nat, d: nat)
    ensures
        a <= 255 && b <= 255 && c <= 255 && d <= 255 ==> ipv4(
            number::decimal(a) + seq!['.'] + (number::decimal(b) + seq!['.'] + (number::decimal(c)
                + seq!['.'] + number::decimal(d))),
        ),
        ipv4(s) ==> exists|e: nat, f: nat, g: nat, h: nat|
            e <= 255 && f <= 255 && g <= 255 && h <= 255 && s == #[trigger] number::decimal(e)
                + seq!['.'] + (#[trigger] number::decimal(f) + seq!['.'] + (
            #[trigger] number::decimal(g) + seq!['.'] + #[trigger] number::decimal(h))),
{
    if a <= 255 && b <= 255 && c <= 255 && d <= 255 {
        let w = number::decimal(a);
        let x = number::decimal(b);
        let y = number::decimal(c);
        let z = number::decimal(d);
        lemma_octet(w, a);
        lemma_octet(x, b);
        lemma_octet(y, c);
        lemma_octet(z, d);
        text::pieces_part_at_each(z, '.', z);
        text::pieces_part_at_each(y, '.', z);
        text::pieces_part_at_each(x, '.', y + seq!['.'] + z);
        text::pieces_part_at_each(w, '.', x + seq!['.'] + (y + seq!['.'] + z));
        assert(text::pieces(w + seq!['.'] + (x + seq!['.'] + (y + seq!['.'] + z)), '.')
            =~= seq![w, x, y, z]);
    }
    if ipv4(s) {
        let p = text::pieces(s, '.');
        let t1 = text::pieces_make_text(s, '.');
        let t2 = text::pieces_make_text(t1, '.');
        let t3 = text::pieces_make_text(t2, '.');
        let t4 = text::pieces_make_text(t3, '.');
        assert(text::pieces(t1, '.')[0] == p[1]);
        assert(text::pieces(t2, '.')[0] == p[2]);
        assert(text::pieces(t3, '.')[0] == p[3]);
        lemma_octet(p[0], 0);
        lemma_octet(p[1], 0);
        lemma_octet(p[2], 0);
        lemma_octet(p[3], 0);
        let e = number::value(p[0]) as nat;
        let f = number::value(p[1]) as nat;
        let g = number::value(p[2]) as nat;
        let h = number::value(p[3]) as nat;
        assert(s == number::decimal(e) + seq!['.'] + (number::decimal(f) + seq!['.'] + (
        number::decimal(g) + seq!['.'] + number::decimal(h))));
    }
}

/// The address is what stands before the slash in the first word that has an address there;
/// without such a word there is none.
pub proof fn first_address_is_found(
    a: Seq<Seq<char>>,
    ip: Seq<char>,
    rest: Seq<char>,
    b: Seq<Seq<char>>,
)
    requires
        forall|i: int|
            0 <= i < a.len() ==> !(#[trigger] a[i]).contains('/') || !ipv4(text::before(a[i], '/')),
    ensures
        first_address(a) is None,
        ipv4(ip) ==> first_address(a + seq![ip + seq!['/'] + rest] + b) == Some(ip),
    decreases a.len(),
{
    let w = ip + seq!['/'] + rest;
    let all = a + seq![w] + b;
    if a.len() == 0 {
        assert(all[0] == w);
        if ipv4(ip) {
            lemma_address_text(ip);
            text::halves_part_at_first(ip, '/', rest);
            let k = choose|k: int| 0 <= k < ip.len() && ip[k] == '.';
            assert(w[k] == '.');
            assert(w[ip.len() as int] == '/');
        }
    } else {
        assert(all[0] == a[0]);
        assert(all.skip(1) =~= a.skip(1) + seq![w] + b);
        assert forall|i: int| 0 <= i < a.skip(1).len() implies !(#[trigger] a.skip(1)[i]).contains(
            '/',
        ) || !ipv4(text::before(a.skip(1)[i], '/')) by {
            assert(a.skip(1)[i] == a[i + 1]);
        }
        first_address_is_found(a.skip(1), ip, rest, b);
    }
}

/// An address holds a dot and no slash.
proof fn lemma_address_text(ip: Seq<char>)
    requires
        ipv4(ip),
    ensures
        ip.contains('.'),
        !ip.contains('/'),
{
    addresses_are_four_numbers(ip, 0, 0, 0, 0);
    let (e, f, g, h) = choose|e: nat, f: nat, g: nat, h: nat|
        e <= 255 && f <= 255 && g <= 255 && h <= 255 && ip == #[trigger] number::decimal(e) + seq![
            '.',
        ] + (#[trigger] number::decimal(f) + seq!['.'] + (#[trigger] number::decimal(g) + seq!['.']
            + #[trigger] number::decimal(h)));
    let w = number::decimal(e);
    let x = number::decimal(f);
    let y = number::decimal(g);
    let z = number::decimal(h);
    lemma_octet(w, e);
    lemma_octet(x, f);
    lemma_octet(y, g);
    lemma_octet(z, h);
    assert(ip[w.len() as int] == '.');
    if ip.contains('/') {
        let k = choose|k: int| 0 <= k < ip.len() && ip[k] == '/';
        if k < w.len() {
            assert(w[k] == '/');
        } else if k < w.len() + 1 + x.len() {
            assert(x[k - w.len() - 1] == '/');
        } else if k < w.len() + x.len() + y.len() + 2 {
            assert(y[k - w.len() - x.len() - 2] == '/');
        } else {
            assert(z[k - w.len() - x.len() - y.len() - 3] == '/');
        }
    }
}

/// What was printed is searched word by word, where it is text; without it there is no
/// address.
pub proof fn listing_is_searched(output: Vec<u8>)
    ensures
        address_of(None) is None,
        vstd::utf8::valid_utf8(output@) ==> address_of(Some(output)) == first_address(
            text::words(vstd::utf8::decode_utf8(output@)),
        ),
        !vstd::utf8::valid_utf8(output@) ==> address_of(Some(output)) == first_address(
            text::words(outside::lossy(output@)),
        ),
{
}

} // verus!
