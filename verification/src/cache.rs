//! The cache file, which hands the last counters on to the next process: `key=value` lines.

use crate::number;
use crate::text;
use vstd::prelude::*;
use vstd::string::*;

verus! {

/// The counters of an interface, and when they were read.
pub struct SavedNet {
    /// The name of the interface.
    pub iface: String,
    /// Bytes received.
    pub rx: u64,
    /// Bytes sent.
    pub tx: u64,
    /// Milliseconds since the Unix epoch.
    pub epoch_ms: u64,
}

/// What a cache file holds.
pub struct Saved {
    /// All ticks and idle ticks of the processor.
    pub cpu: Option<(u64, u64)>,
    /// The counters of an interface.
    pub net: Option<SavedNet>,
}

/// The mathematical content of a [`SavedNet`].
pub struct NetRecord {
    pub iface: Seq<char>,
    pub rx: u64,
    pub tx: u64,
    pub epoch_ms: u64,
}

/// The mathematical content of a [`Saved`].
pub struct Record {
    pub cpu: Option<(u64, u64)>,
    pub net: Option<NetRecord>,
}

impl View for SavedNet {
    type V = NetRecord;

    open spec fn view(&self) -> NetRecord {
        NetRecord { iface: self.iface@, rx: self.rx, tx: self.tx, epoch_ms: self.epoch_ms }
    }
}

impl View for Saved {
    type V = Record;

    open spec fn view(&self) -> Record {
        Record {
            cpu: self.cpu,
            net: match self.net {
                Some(n) => Some(n@),
                None => None,
            },
        }
    }
}

/// The trimmed value of the last line of `ls` that starts with `key`.
pub open spec fn last_entry(ls: Seq<Seq<char>>, key: Seq<char>) -> Option<Seq<char>>
    decreases ls.len(),
{
    if ls.len() == 0 {
        None
    } else {
        match text::after_prefix(ls.last(), key) {
            Some(v) => Some(text::trimmed(v)),
            None => last_entry(ls.drop_last(), key),
        }
    }
}

/// The number in the last line of `ls` that starts with `key`.
pub open spec fn last_number(ls: Seq<Seq<char>>, key: Seq<char>) -> Option<u64> {
    match last_entry(ls, key) {
        Some(v) => number::as_u64(v),
        None => None,
    }
}

/// The ticks that lines of a cache file hold: both numbers, or nothing.
pub open spec fn cpu_record(ls: Seq<Seq<char>>) -> Option<(u64, u64)> {
    match (last_number(ls, "cpu_total="@), last_number(ls, "cpu_idle="@)) {
        (Some(total), Some(idle)) => Some((total, idle)),
        _ => None,
    }
}

/// The interface that lines of a cache file hold: one with a name and a time. A counter that
/// is missing or unreadable counts as zero.
pub open spec fn net_record(ls: Seq<Seq<char>>) -> Option<NetRecord> {
    let epoch_ms = last_number(ls, "net_epoch_ms="@).unwrap_or(0);
    match last_entry(ls, "net_iface="@) {
        Some(iface) if iface.len() > 0 && epoch_ms > 0 => Some(
            NetRecord {
                iface,
                rx: last_number(ls, "net_rx="@).unwrap_or(0),
                tx: last_number(ls, "net_tx="@).unwrap_or(0),
                epoch_ms,
            },
        ),
        _ => None,
    }
}

/// What the text of a cache file holds.
pub open spec fn record(cache: Seq<char>) -> Record {
    Record { cpu: cpu_record(text::lines(cache)), net: net_record(text::lines(cache)) }
}

/// The lines for the ticks of the processor.
pub open spec fn cpu_text(cpu: (u64, u64)) -> Seq<char> {
    "cpu_total="@ + number::decimal(cpu.0 as nat) + seq!['\n'] + ("cpu_idle="@ + number::decimal(
        cpu.1 as nat,
    ))
}

/// The lines for the counters of an interface.
pub open spec fn net_text(net: NetRecord) -> Seq<char> {
    "net_iface="@ + net.iface + seq!['\n'] + ("net_rx="@ + number::decimal(net.rx as nat) + seq![
        '\n',
    ] + ("net_tx="@ + number::decimal(net.tx as nat) + seq!['\n'] + ("net_epoch_ms="@
        + number::decimal(net.epoch_ms as nat))))
}

/// The text of a cache file; none where there is nothing to keep.
pub open spec fn cache_text(r: Record) -> Option<Seq<char>> {
    match (r.cpu, r.net) {
        (Some(cpu), Some(net)) => Some(cpu_text(cpu) + seq!['\n'] + net_text(net)),
        (Some(cpu), None) => Some(cpu_text(cpu)),
        (None, Some(net)) => Some(net_text(net)),
        (None, None) => None,
    }
}

/// Finds the value of the last line that starts with `key`.
fn find_entry<'a>(ls: &Vec<&'a [char]>, key: &str) -> (r: Option<&'a [char]>)
    ensures
        match r {
            Some(v) => last_entry(text::contents(ls@), key@) == Some(v@),
            None => last_entry(text::contents(ls@), key@) is None,
        },
{
    let ghost all = text::contents(ls@);
    let mut n: usize = ls.len();
    assert(all.take(n as int) =~= all);
    while n > 0
        invariant
            n <= ls@.len(),
            all == text::contents(ls@),
            last_entry(all, key@) == last_entry(all.take(n as int), key@),
        decreases n,
    {
        n = n - 1;
        assert(all.take(n + 1).last() == ls@[n as int]@);
        assert(all.take(n + 1).drop_last() =~= all.take(n as int));
        match text::strip(ls[n], key) {
            Some(v) => {
                return Some(text::trim(v));
            },
            None => {},
        }
    }
    None
}

/// Finds the number in the last line that starts with `key`.
fn find_number(ls: &Vec<&[char]>, key: &str) -> (r: Option<u64>)
    ensures
        r == last_number(text::contents(ls@), key@),
{
    match find_entry(ls, key) {
        Some(v) => number::parse_u64(v),
        None => None,
    }
}

/// Reads the text of a cache file. Whatever is missing or unreadable is left out.
pub fn read_cache(cache: &str) -> (r: Saved)
    ensures
        r@ == record(cache@),
{
    let all: Vec<char> = text::chars_of(cache);
    let ls = text::split_lines(&all);
    let cpu: Option<(u64, u64)> = match (
        find_number(&ls, "cpu_total="),
        find_number(&ls, "cpu_idle="),
    ) {
        (Some(total), Some(idle)) => Some((total, idle)),
        _ => None,
    };
    let epoch_ms: u64 = find_number(&ls, "net_epoch_ms=").unwrap_or(0);
    let net: Option<SavedNet> = match find_entry(&ls, "net_iface=") {
        Some(iface) => if iface.len() > 0 && epoch_ms > 0 {
            Some(
                SavedNet {
                    iface: text::text_of(iface),
                    rx: find_number(&ls, "net_rx=").unwrap_or(0),
                    tx: find_number(&ls, "net_tx=").unwrap_or(0),
                    epoch_ms,
                },
            )
        } else {
            None
        },
        None => None,
    };
    Saved { cpu, net }
}

/// Writes the text of a cache file.
pub fn write_cache(saved: &Saved) -> (r: Option<String>)
    ensures
        match r {
            Some(t) => cache_text(saved@) == Some(t@),
            None => cache_text(saved@) is None,
        },
{
    let mut out: String = String::new();
    let mut any: bool = false;
    if let Some((total, idle)) = saved.cpu {
        out.append("cpu_total=");
        out.append(number::decimal_of(total).as_str());
        out.push('\n');
        out.append("cpu_idle=");
        out.append(number::decimal_of(idle).as_str());
        any = true;
        assert(out@ =~= cpu_text((total, idle)));
    }
    let ghost head = out@;
    if let Some(net) = &saved.net {
        if any {
            out.push('\n');
        }
        let ghost start = out@;
        out.append("net_iface=");
        out.append(net.iface.as_str());
        out.push('\n');
        out.append("net_rx=");
        out.append(number::decimal_of(net.rx).as_str());
        out.push('\n');
        out.append("net_tx=");
        out.append(number::decimal_of(net.tx).as_str());
        out.push('\n');
        out.append("net_epoch_ms=");
        out.append(number::decimal_of(net.epoch_ms).as_str());
        assert(out@ =~= start + net_text(net@));
        assert(any ==> out@ =~= head + seq!['\n'] + net_text(net@));
        any = true;
        assert(saved.cpu is None ==> out@ =~= net_text(net@));
    }
    if any {
        Some(out)
    } else {
        None
    }
}

/// A name that a cache file can hold whole: not empty, without a line feed, and with no
/// whitespace at its ends.
pub open spec fn storable_name(iface: Seq<char>) -> bool {
    iface.len() > 0 && !iface.contains('\n') && text::trimmed(iface) == iface
}

/// A record that a cache file can hold whole: an interface has such a name, and its time is
/// not the epoch itself.
pub open spec fn storable(r: Record) -> bool {
    match r.net {
        Some(net) => storable_name(net.iface) && net.epoch_ms > 0,
        None => true,
    }
}

/// The keys are free of whitespace, and no one starts another.
proof fn lemma_keys()
    ensures
        text::spaceless("cpu_total="@),
        text::spaceless("cpu_idle="@),
        text::spaceless("net_iface="@),
        text::spaceless("net_rx="@),
        text::spaceless("net_tx="@),
        text::spaceless("net_epoch_ms="@),
        "cpu_total="@.len() == 10 && "cpu_total="@[0] == 'c' && "cpu_total="@[4] == 't',
        "cpu_idle="@.len() == 9 && "cpu_idle="@[0] == 'c' && "cpu_idle="@[4] == 'i',
        "net_iface="@.len() == 10 && "net_iface="@[0] == 'n' && "net_iface="@[4] == 'i',
        "net_rx="@.len() == 7 && "net_rx="@[0] == 'n' && "net_rx="@[4] == 'r',
        "net_tx="@.len() == 7 && "net_tx="@[0] == 'n' && "net_tx="@[4] == 't',
        "net_epoch_ms="@.len() == 13 && "net_epoch_ms="@[0] == 'n' && "net_epoch_ms="@[4] == 'e',
{
    reveal_strlit("cpu_total=");
    reveal_strlit("cpu_idle=");
    reveal_strlit("net_iface=");
    reveal_strlit("net_rx=");
    reveal_strlit("net_tx=");
    reveal_strlit("net_epoch_ms=");
}

/// A line of one key does not start with another.
proof fn lemma_other_key(key: Seq<char>, other: Seq<char>, v: Seq<char>)
    requires
        key.len() > 4,
        other.len() > 4,
        key[0] != other[0] || key[4] != other[4],
    ensures
        !key.is_prefix_of(other + v),
{
    let s = other + v;
    assert(s[0] == other[0] && s[4] == other[4]);
    if key.is_prefix_of(s) {
        assert(s.subrange(0, key.len() as int)[0] == s[0]);
        assert(s.subrange(0, key.len() as int)[4] == s[4]);
    }
}

/// The last line of a key decides its value.
proof fn lemma_entry(ls: Seq<Seq<char>>, j: int, key: Seq<char>, v: Seq<char>)
    requires
        0 <= j < ls.len(),
        ls[j] == key + v,
        text::trimmed(v) == v,
        forall|i: int| j < i < ls.len() ==> !key.is_prefix_of(#[trigger] ls[i]),
    ensures
        last_entry(ls, key) == Some(v),
    decreases ls.len(),
{
    if j == ls.len() - 1 {
        let s = key + v;
        assert(key =~= s.subrange(0, key.len() as int));
        assert(s.skip(key.len() as int) =~= v);
    } else {
        assert(!key.is_prefix_of(ls[ls.len() - 1]));
        lemma_entry(ls.drop_last(), j, key, v);
    }
}

/// A key that no line starts with has no value.
proof fn lemma_no_entry(ls: Seq<Seq<char>>, key: Seq<char>)
    requires
        forall|i: int| 0 <= i < ls.len() ==> !key.is_prefix_of(#[trigger] ls[i]),
    ensures
        last_entry(ls, key) is None,
    decreases ls.len(),
{
    if ls.len() > 0 {
        assert(!key.is_prefix_of(ls[ls.len() - 1]));
        lemma_no_entry(ls.drop_last(), key);
    }
}

/// One entry of a cache file is one line.
proof fn lemma_entry_line(key: Seq<char>, v: Seq<char>)
    requires
        text::spaceless(key),
        key.len() > 0,
        text::one_line(v),
    ensures
        text::one_line(key + v),
        (key + v).len() > 0,
{
    let s = key + v;
    text::lemma_spaceless_line(key);
    if s.contains('\n') {
        let i = choose|i: int| 0 <= i < s.len() && s[i] == '\n';
        if i < key.len() {
            assert(key[i] == '\n');
        } else {
            assert(v[i - key.len()] == '\n');
        }
    }
    if v.len() == 0 {
        assert(s =~= key);
    } else {
        assert(s.last() == v.last());
    }
}

/// A storable name is one line.
proof fn lemma_storable_line(iface: Seq<char>)
    requires
        storable_name(iface),
    ensures
        text::one_line(iface),
{
    text::lemma_trimmed_last(iface);
    assert(text::space('\r'));
}

/// Digits are one line.
proof fn lemma_number_line(n: u64)
    ensures
        text::one_line(number::decimal(n as nat)),
        text::trimmed(number::decimal(n as nat)) == number::decimal(n as nat),
        number::as_u64(number::decimal(n as nat)) == Some(n),
{
    number::lemma_decimal_spaceless(n as nat);
    text::lemma_spaceless_line(number::decimal(n as nat));
    number::decimal_is_read_back(n);
}

/// The lines of the processor's part, before whatever follows it.
proof fn lemma_cpu_lines(cpu: (u64, u64), rest: Seq<char>)
    ensures
        text::lines(cpu_text(cpu)) == seq![
            "cpu_total="@ + number::decimal(cpu.0 as nat),
            "cpu_idle="@ + number::decimal(cpu.1 as nat),
        ],
        text::lines(cpu_text(cpu) + seq!['\n'] + rest) == seq![
            "cpu_total="@ + number::decimal(cpu.0 as nat),
            "cpu_idle="@ + number::decimal(cpu.1 as nat),
        ] + text::lines(rest),
{
    let a = "cpu_total="@ + number::decimal(cpu.0 as nat);
    let b = "cpu_idle="@ + number::decimal(cpu.1 as nat);
    lemma_keys();
    lemma_number_line(cpu.0);
    lemma_number_line(cpu.1);
    lemma_entry_line("cpu_total="@, number::decimal(cpu.0 as nat));
    lemma_entry_line("cpu_idle="@, number::decimal(cpu.1 as nat));
    text::lemma_only_line(b);
    text::lemma_first_line(a, b);
    assert(seq![a] + seq![b] =~= seq![a, b]);
    text::lemma_first_line(b, rest);
    text::lemma_first_line(a, b + seq!['\n'] + rest);
    assert(cpu_text(cpu) + seq!['\n'] + rest =~= a + seq!['\n'] + (b + seq!['\n'] + rest));
    assert(seq![a] + (seq![b] + text::lines(rest)) =~= seq![a, b] + text::lines(rest));
}

/// The lines of an interface's part.
proof fn lemma_net_lines(net: NetRecord)
    requires
        storable_name(net.iface),
    ensures
        text::lines(net_text(net)) == seq![
            "net_iface="@ + net.iface,
            "net_rx="@ + number::decimal(net.rx as nat),
            "net_tx="@ + number::decimal(net.tx as nat),
            "net_epoch_ms="@ + number::decimal(net.epoch_ms as nat),
        ],
{
    let a = "net_iface="@ + net.iface;
    let b = "net_rx="@ + number::decimal(net.rx as nat);
    let c = "net_tx="@ + number::decimal(net.tx as nat);
    let d = "net_epoch_ms="@ + number::decimal(net.epoch_ms as nat);
    lemma_keys();
    lemma_number_line(net.rx);
    lemma_number_line(net.tx);
    lemma_number_line(net.epoch_ms);
    lemma_storable_line(net.iface);
    lemma_entry_line("net_iface="@, net.iface);
    lemma_entry_line("net_rx="@, number::decimal(net.rx as nat));
    lemma_entry_line("net_tx="@, number::decimal(net.tx as nat));
    lemma_entry_line("net_epoch_ms="@, number::decimal(net.epoch_ms as nat));
    text::lemma_only_line(d);
    text::lemma_first_line(c, d);
    text::lemma_first_line(b, c + seq!['\n'] + d);
    text::lemma_first_line(a, b + seq!['\n'] + (c + seq!['\n'] + d));
    assert(seq![a] + (seq![b] + (seq![c] + seq![d])) =~= seq![a, b, c, d]);
}

/// The lines hold the ticks, and the lines of an interface leave them as they are.
proof fn lemma_cpu_read(cpu: (u64, u64), tail: Seq<Seq<char>>)
    requires
        forall|i: int|
            0 <= i < tail.len() ==> !"cpu_total="@.is_prefix_of(#[trigger] tail[i])
                && !"cpu_idle="@.is_prefix_of(tail[i]),
    ensures
        cpu_record(
            seq![
                "cpu_total="@ + number::decimal(cpu.0 as nat),
                "cpu_idle="@ + number::decimal(cpu.1 as nat),
            ] + tail,
        ) == Some(cpu),
{
    let t = number::decimal(cpu.0 as nat);
    let u = number::decimal(cpu.1 as nat);
    let head = seq!["cpu_total="@ + t, "cpu_idle="@ + u];
    let ls = head + tail;
    lemma_keys();
    lemma_number_line(cpu.0);
    lemma_number_line(cpu.1);
    lemma_other_key("cpu_total="@, "cpu_idle="@, u);
    assert forall|i: int| 0 < i < ls.len() implies !"cpu_total="@.is_prefix_of(
        #[trigger] ls[i],
    ) by {
        if i >= 2 {
            assert(ls[i] == tail[i - 2]);
        }
    }
    lemma_entry(ls, 0, "cpu_total="@, t);
    assert forall|i: int| 1 < i < ls.len() implies !"cpu_idle="@.is_prefix_of(#[trigger] ls[i]) by {
        assert(ls[i] == tail[i - 2]);
    }
    lemma_entry(ls, 1, "cpu_idle="@, u);
}

/// The lines of an interface hold its counters, whatever stands before them.
proof fn lemma_net_read(head: Seq<Seq<char>>, net: NetRecord)
    requires
        storable_name(net.iface),
        net.epoch_ms > 0,
    ensures
        net_record(
            head + seq![
                "net_iface="@ + net.iface,
                "net_rx="@ + number::decimal(net.rx as nat),
                "net_tx="@ + number::decimal(net.tx as nat),
                "net_epoch_ms="@ + number::decimal(net.epoch_ms as nat),
            ],
        ) == Some(net),
{
    let rx = number::decimal(net.rx as nat);
    let tx = number::decimal(net.tx as nat);
    let ms = number::decimal(net.epoch_ms as nat);
    let tail = seq![
        "net_iface="@ + net.iface,
        "net_rx="@ + rx,
        "net_tx="@ + tx,
        "net_epoch_ms="@ + ms,
    ];
    let ls = head + tail;
    let n = head.len() as int;
    assert(ls[n] == tail[0] && ls[n + 1] == tail[1] && ls[n + 2] == tail[2] && ls[n + 3]
        == tail[3]);
    lemma_keys();
    lemma_number_line(net.rx);
    lemma_number_line(net.tx);
    lemma_number_line(net.epoch_ms);
    lemma_other_key("net_iface="@, "net_rx="@, rx);
    lemma_other_key("net_iface="@, "net_tx="@, tx);
    lemma_other_key("net_iface="@, "net_epoch_ms="@, ms);
    lemma_other_key("net_rx="@, "net_tx="@, tx);
    lemma_other_key("net_rx="@, "net_epoch_ms="@, ms);
    lemma_other_key("net_tx="@, "net_epoch_ms="@, ms);
    lemma_entry(ls, n, "net_iface="@, net.iface);
    lemma_entry(ls, n + 1, "net_rx="@, rx);
    lemma_entry(ls, n + 2, "net_tx="@, tx);
    lemma_entry(ls, n + 3, "net_epoch_ms="@, ms);
}

/// Reading a cache file gives back what was written to it.
pub proof fn cache_is_read_back(r: Record)
    requires
        storable(r),
        cache_text(r) is Some,
    ensures
        record(cache_text(r)->0) == r,
{
    lemma_keys();
    let none = Seq::<Seq<char>>::empty();
    match (r.cpu, r.net) {
        (Some(cpu), Some(net)) => {
            lemma_cpu_lines(cpu, net_text(net));
            lemma_net_lines(net);
            let tail = text::lines(net_text(net));
            assert forall|i: int| 0 <= i < tail.len() implies !"cpu_total="@.is_prefix_of(
                #[trigger] tail[i],
            ) && !"cpu_idle="@.is_prefix_of(tail[i]) by {
                lemma_net_line_keys(net, i);
            }
            lemma_cpu_read(cpu, tail);
            lemma_net_read(
                seq![
                    "cpu_total="@ + number::decimal(cpu.0 as nat),
                    "cpu_idle="@ + number::decimal(cpu.1 as nat),
                ],
                net,
            );
        },
        (Some(cpu), None) => {
            lemma_cpu_lines(cpu, Seq::empty());
            lemma_cpu_read(cpu, none);
            let ls = text::lines(cpu_text(cpu));
            assert(ls + none =~= ls);
            lemma_other_key("net_iface="@, "cpu_total="@, number::decimal(cpu.0 as nat));
            lemma_other_key("net_iface="@, "cpu_idle="@, number::decimal(cpu.1 as nat));
            lemma_no_entry(ls, "net_iface="@);
        },
        (None, Some(net)) => {
            lemma_net_lines(net);
            lemma_net_read(none, net);
            let ls = text::lines(net_text(net));
            assert(none + ls =~= ls);
            assert forall|i: int| 0 <= i < ls.len() implies !"cpu_total="@.is_prefix_of(
                #[trigger] ls[i],
            ) by {
                lemma_net_line_keys(net, i);
            }
            lemma_no_entry(ls, "cpu_total="@);
        },
        (None, None) => {},
    }
}

/// No line of an interface looks like one of the processor.
proof fn lemma_net_line_keys(net: NetRecord, i: int)
    requires
        0 <= i < 4,
        storable_name(net.iface),
    ensures
        !"cpu_total="@.is_prefix_of(text::lines(net_text(net))[i]),
        !"cpu_idle="@.is_prefix_of(text::lines(net_text(net))[i]),
{
    lemma_keys();
    lemma_net_lines(net);
    let rx = number::decimal(net.rx as nat);
    let tx = number::decimal(net.tx as nat);
    let ms = number::decimal(net.epoch_ms as nat);
    lemma_other_key("cpu_total="@, "net_iface="@, net.iface);
    lemma_other_key("cpu_total="@, "net_rx="@, rx);
    lemma_other_key("cpu_total="@, "net_tx="@, tx);
    lemma_other_key("cpu_total="@, "net_epoch_ms="@, ms);
    lemma_other_key("cpu_idle="@, "net_iface="@, net.iface);
    lemma_other_key("cpu_idle="@, "net_rx="@, rx);
    lemma_other_key("cpu_idle="@, "net_tx="@, tx);
    lemma_other_key("cpu_idle="@, "net_epoch_ms="@, ms);
}

/// The value of an entry is trimmed, and holds no line feed where the lines hold none.
proof fn lemma_entry_is_trimmed(ls: Seq<Seq<char>>, key: Seq<char>)
    requires
        forall|i: int| 0 <= i < ls.len() ==> !(#[trigger] ls[i]).contains('\n'),
    ensures
        last_entry(ls, key) matches Some(v) ==> text::trimmed(v) == v && !v.contains('\n'),
    decreases ls.len(),
{
    if ls.len() > 0 {
        let line = ls.last();
        match text::after_prefix(line, key) {
            Some(v) => {
                text::lemma_trimmed_again(v);
                assert(!ls[ls.len() - 1].contains('\n'));
                if v.contains('\n') {
                    let i = choose|i: int| 0 <= i < v.len() && v[i] == '\n';
                    assert(line[i + key.len()] == '\n');
                }
            },
            None => {
                lemma_entry_is_trimmed(ls.drop_last(), key);
            },
        }
    }
}

/// Whatever a cache file holds, what is read from it can be saved again and read back.
pub proof fn read_record_is_storable(cache: Seq<char>)
    ensures
        storable(record(cache)),
{
    text::lemma_lines_hold_no_feed(cache);
    lemma_entry_is_trimmed(text::lines(cache), "net_iface="@);
}

/// A name without whitespace can be saved.
pub proof fn word_is_storable(iface: Seq<char>)
    requires
        iface.len() > 0,
        text::spaceless(iface),
    ensures
        storable_name(iface),
{
    text::lemma_trimmed_spaceless(iface);
    text::lemma_spaceless_line(iface);
}

/// The last line that starts with a key gives its value, without blank ends; without such a
/// line there is none.
pub proof fn last_line_wins(
    a: Seq<Seq<char>>,
    key: Seq<char>,
    v: Seq<char>,
    b: Seq<Seq<char>>,
)
    requires
        forall|i: int| 0 <= i < b.len() ==> !key.is_prefix_of(#[trigger] b[i]),
    ensures
        last_entry(b, key) is None,
        last_entry(a + seq![key + v] + b, key) == Some(text::trimmed(v)),
    decreases b.len(),
{
    let all = a + seq![key + v] + b;
    if b.len() == 0 {
        assert(all.last() == key + v);
        text::prefix_is_stripped(key, v, v);
    } else {
        let t = b.drop_last();
        assert(all.last() == b[b.len() - 1]);
        assert(all.drop_last() =~= a + seq![key + v] + t);
        assert forall|i: int| 0 <= i < t.len() implies !key.is_prefix_of(#[trigger] t[i]) by {
            assert(t[i] == b[i]);
        }
        last_line_wins(a, key, v, t);
    }
}

/// A line of a key and decimal digits says the number, as far as 64 bits hold it.
pub proof fn numbers_are_read(
    a: Seq<Seq<char>>,
    key: Seq<char>,
    n: nat,
    v: Seq<char>,
    b: Seq<Seq<char>>,
)
    requires
        forall|i: int| 0 <= i < b.len() ==> !key.is_prefix_of(#[trigger] b[i]),
    ensures
        n <= 0xffff_ffff_ffff_ffff ==> last_number(a + seq![key + number::decimal(n)] + b, key)
            == Some(n as u64),
        n > 0xffff_ffff_ffff_ffff ==> last_number(
            a + seq![key + number::decimal(n)] + b,
            key,
        ) is None,
        last_number(a + seq![key + v] + b, key) == number::as_u64(text::trimmed(v)),
        last_number(b, key) is None,
{
    last_line_wins(a, key, number::decimal(n), b);
    last_line_wins(a, key, v, b);
    number::decimal_is_read(n);
    number::lemma_decimal_spaceless(n);
}

/// The ticks are there where both numbers are; an interface is there where it has a name and
/// a time, and a counter that is not there counts as zero.
pub proof fn records_are_read(cache: Seq<char>)
    ensures
        ({
            let ls = text::lines(cache);
            let total = last_number(ls, "cpu_total="@);
            let idle = last_number(ls, "cpu_idle="@);
            let iface = last_entry(ls, "net_iface="@);
            let epoch_ms = last_number(ls, "net_epoch_ms="@);
            &&& record(cache).cpu is Some <==> total is Some && idle is Some
            &&& record(cache).cpu matches Some((t, i)) ==> total == Some(t) && idle == Some(i)
            &&& record(cache).net is Some <==> iface is Some && iface->0.len() > 0
                && epoch_ms is Some && epoch_ms->0 > 0
            &&& record(cache).net matches Some(net) ==> {
                &&& iface == Some(net.iface)
                &&& epoch_ms == Some(net.epoch_ms)
                &&& last_number(ls, "net_rx="@) is None ==> net.rx == 0
                &&& last_number(ls, "net_rx="@) matches Some(rx) ==> net.rx == rx
                &&& last_number(ls, "net_tx="@) is None ==> net.tx == 0
                &&& last_number(ls, "net_tx="@) matches Some(tx) ==> net.tx == tx
            }
        }),
{
}

/// The text has a line for each number and name that there is, and nothing else; without any
/// there is no text.
pub proof fn records_are_written(cpu: (u64, u64), net: NetRecord)
    ensures
        ({
            let ticks = "cpu_total="@ + number::decimal(cpu.0 as nat) + seq!['\n'] + ("cpu_idle="@
                + number::decimal(cpu.1 as nat));
            let counters = "net_iface="@ + net.iface + seq!['\n'] + ("net_rx="@ + number::decimal(
                net.rx as nat,
            ) + seq!['\n'] + ("net_tx="@ + number::decimal(net.tx as nat) + seq!['\n'] + (
            "net_epoch_ms="@ + number::decimal(net.epoch_ms as nat))));
            &&& cache_text(Record { cpu: Some(cpu), net: Some(net) }) == Some(
                ticks + seq!['\n'] + counters,
            )
            &&& cache_text(Record { cpu: Some(cpu), net: None }) == Some(ticks)
            &&& cache_text(Record { cpu: None, net: Some(net) }) == Some(counters)
            &&& cache_text(Record { cpu: None, net: None }) is None
        }),
{
}

/// Every record whose interface has a name without whitespace and a time is read back from
/// its own text.
pub proof fn record_survives(r: Record)
    requires
        r.cpu is Some || r.net is Some,
        r.net matches Some(net) ==> net.iface.len() > 0 && text::spaceless(net.iface)
            && net.epoch_ms > 0,
    ensures
        cache_text(r) is Some,
        record(cache_text(r)->0) == r,
{
    if let Some(net) = r.net {
        word_is_storable(net.iface);
    }
    cache_is_read_back(r);
}

/// The content of a record is what its fields hold.
pub proof fn contents_are_fields(saved: Saved)
    ensures
        saved@.cpu == saved.cpu,
        saved.net is None ==> saved@.net is None,
        saved.net matches Some(n) ==> (saved@.net matches Some(m) && m.iface == n.iface@ && m.rx
            == n.rx && m.tx == n.tx && m.epoch_ms == n.epoch_ms),
{
}

} // verus!
