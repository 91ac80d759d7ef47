//! The graphics card, from the one line that `nvidia-smi` prints for it.

use crate::command::CommandOutput;
use crate::number;
use crate::outside;
use crate::text;
use vstd::prelude::*;

verus! {

/// What is known of the graphics card. Readings that may have a fraction are kept as the text
/// that was printed for them.
pub struct GpuInfo {
    /// Whether there is a card.
    pub available: bool,
    /// How busy it is.
    pub percent: Option<u8>,
    /// Power in watts.
    pub power_w: Option<String>,
    /// Degrees Celsius.
    pub temp_c: Option<String>,
    /// Memory in use, in MiB.
    pub vram_used_mb: Option<String>,
    /// Memory in all, in MiB.
    pub vram_total_mb: Option<String>,
    /// The name of the card.
    pub name: Option<String>,
}

/// The mathematical content of a [`GpuInfo`].
pub struct Gpu {
    pub available: bool,
    pub percent: Option<u8>,
    pub power_w: Option<Seq<char>>,
    pub temp_c: Option<Seq<char>>,
    pub vram_used_mb: Option<Seq<char>>,
    pub vram_total_mb: Option<Seq<char>>,
    pub name: Option<Seq<char>>,
}

impl View for GpuInfo {
    type V = Gpu;

    open spec fn view(&self) -> Gpu {
        Gpu {
            available: self.available,
            percent: self.percent,
            power_w: self.power_w.deep_view(),
            temp_c: self.temp_c.deep_view(),
            vram_used_mb: self.vram_used_mb.deep_view(),
            vram_total_mb: self.vram_total_mb.deep_view(),
            name: self.name.deep_view(),
        }
    }
}

/// No graphics card.
pub open spec fn no_gpu() -> Gpu {
    Gpu {
        available: false,
        percent: None,
        power_w: None,
        temp_c: None,
        vram_used_mb: None,
        vram_total_mb: None,
        name: None,
    }
}

/// The fields of the first line of what was printed, which commas part.
pub open spec fn fields_of(printed: Seq<char>) -> Seq<Seq<char>> {
    text::pieces(text::trimmed(text::nth_or_empty(text::lines(printed), 0)), ',')
}

/// Field `i`, trimmed, where there is one.
pub open spec fn field(fields: Seq<Seq<char>>, i: int) -> Option<Seq<char>> {
    if 0 <= i < fields.len() {
        Some(text::trimmed(fields[i]))
    } else {
        None
    }
}

/// What fields say of a card: use, temperature, power, memory in use and in all, name. A use
/// that cannot be read counts as zero, one over a hundred as a hundred. An amount of memory
/// that is missing is zero.
pub open spec fn gpu_of(fields: Seq<Seq<char>>) -> Gpu {
    let used = match field(fields, 0) {
        Some(s) => number::as_u8(s).unwrap_or(0),
        None => 0,
    };
    Gpu {
        available: true,
        percent: Some(
            if used > 100 {
                100
            } else {
                used
            },
        ),
        temp_c: field(fields, 1),
        power_w: field(fields, 2),
        vram_used_mb: Some(field(fields, 3).unwrap_or("0"@)),
        vram_total_mb: Some(field(fields, 4).unwrap_or("0"@)),
        name: Some(field(fields, 5).unwrap_or("GPU"@)),
    }
}

/// What is known of the card after `nvidia-smi` was tried.
pub open spec fn gpu_after(output: Option<CommandOutput>) -> Gpu {
    match output {
        Some(out) if out.success => gpu_of(fields_of(outside::decoded(out.stdout@))),
        _ => no_gpu(),
    }
}

/// Reads field `i`.
fn read_field(fields: &Vec<&[char]>, i: usize) -> (r: Option<String>)
    ensures
        r.deep_view() == field(text::contents(fields@), i as int),
{
    if i < fields.len() {
        Some(text::text_of(text::trim(fields[i])))
    } else {
        None
    }
}

/// Reads field `i`, or takes `default`.
fn read_field_or(fields: &Vec<&[char]>, i: usize, default: &str) -> (r: String)
    ensures
        r@ == field(text::contents(fields@), i as int).unwrap_or(default@),
{
    match read_field(fields, i) {
        Some(s) => s,
        None => default.to_owned(),
    }
}

/// What is shown where there is no card.
pub fn gpu_unavailable() -> (r: GpuInfo)
    ensures
        r@ == no_gpu(),
{
    GpuInfo {
        available: false,
        percent: None,
        power_w: None,
        temp_c: None,
        vram_used_mb: None,
        vram_total_mb: None,
        name: None,
    }
}

/// Reads what `nvidia-smi` printed.
pub fn parse_nvidia_smi(printed: &str) -> (r: GpuInfo)
    ensures
        r@ == gpu_of(fields_of(printed@)),
{
    let all: Vec<char> = text::chars_of(printed);
    let ls = text::split_lines(&all);
    let line = text::trim(text::column(&ls, 0));
    let fields = text::split_at_each(line, ',');
    let used: u8 = match read_field(&fields, 0) {
        Some(s) => number::parse_u8(&text::chars_of(s.as_str())).unwrap_or(0),
        None => 0,
    };
    let name: String = read_field_or(&fields, 5, "GPU");
    GpuInfo {
        available: true,
        percent: Some(
            if used > 100 {
                100
            } else {
                used
            },
        ),
        power_w: read_field(&fields, 2),
        temp_c: read_field(&fields, 1),
        vram_used_mb: Some(read_field_or(&fields, 3, "0")),
        vram_total_mb: Some(read_field_or(&fields, 4, "0")),
        name: Some(name),
    }
}

/// Reads the graphics card, and keeps its name where there is one. A missing or failing
/// command means that there is no card.
pub fn read_gpu(output: &Option<CommandOutput>, name_cache: &mut Option<String>) -> (r: GpuInfo)
    ensures
        r@ == gpu_after(*output),
        r@.available ==> final(name_cache).deep_view() == r@.name,
        !r@.available ==> *final(name_cache) == *old(name_cache),
{
    match output {
        Some(out) => if out.success {
            let info: GpuInfo = parse_nvidia_smi(outside::utf8_lossy(&out.stdout).as_str());
            *name_cache = info.name.clone();
            info
        } else {
            gpu_unavailable()
        },
        None => gpu_unavailable(),
    }
}

/// There is a card just where the command ran and succeeded. It is never shown as more than
/// fully busy, and always has a name and both amounts of memory; without a card there are none.
pub proof fn gpu_is_bounded(output: Option<CommandOutput>)
    ensures
        ({
            let g = gpu_after(output);
            &&& g.available <==> output is Some && output->0.success
            &&& g.percent is Some <==> g.available
            &&& g.available ==> g.percent->0 <= 100
            &&& g.name is Some <==> g.available
            &&& g.vram_used_mb is Some <==> g.available
            &&& g.vram_total_mb is Some <==> g.available
        }),
{
}

/// A use that is written in digits is shown as that percentage, up to a hundred; one beyond
/// what 8 bits hold is not read, and counts as zero.
pub proof fn use_is_read(fields: Seq<Seq<char>>, n: nat)
    requires
        fields.len() > 0,
        text::trimmed(fields[0]) == number::decimal(n),
    ensures
        gpu_of(fields).percent is Some,
        n <= 100 ==> gpu_of(fields).percent->0 == n,
        100 < n <= 255 ==> gpu_of(fields).percent->0 == 100,
        255 < n ==> gpu_of(fields).percent->0 == 0,
{
    number::decimal_is_read(n);
}

/// Each reading is its field without blank ends. Where fields are missing, so are temperature
/// and power, the amounts of memory are zero, and the name is a general one.
pub proof fn fields_are_readings(fields: Seq<Seq<char>>)
    ensures
        gpu_of(fields).available,
        fields.len() == 0 ==> gpu_of(fields).percent == Some(0u8),
        fields.len() > 0 && number::as_u8(text::trimmed(fields[0])) is None ==> gpu_of(
            fields,
        ).percent == Some(0u8),
        fields.len() > 0 ==> (number::as_u8(text::trimmed(fields[0])) matches Some(n) ==> gpu_of(
            fields,
        ).percent == Some(
            if n <= 100 {
                n
            } else {
                100u8
            },
        )),
        fields.len() > 1 ==> gpu_of(fields).temp_c == Some(text::trimmed(fields[1])),
        fields.len() > 2 ==> gpu_of(fields).power_w == Some(text::trimmed(fields[2])),
        fields.len() > 3 ==> gpu_of(fields).vram_used_mb == Some(text::trimmed(fields[3])),
        fields.len() > 4 ==> gpu_of(fields).vram_total_mb == Some(text::trimmed(fields[4])),
        fields.len() > 5 ==> gpu_of(fields).name == Some(text::trimmed(fields[5])),
        fields.len() <= 1 ==> gpu_of(fields).temp_c is None,
        fields.len() <= 2 ==> gpu_of(fields).power_w is None,
        fields.len() <= 3 ==> gpu_of(fields).vram_used_mb == Some(seq!['0']),
        fields.len() <= 4 ==> gpu_of(fields).vram_total_mb == Some(seq!['0']),
        fields.len() <= 5 ==> gpu_of(fields).name == Some(seq!['G', 'P', 'U']),
{
    reveal_strlit("0");
    reveal_strlit("GPU");
    assert("0"@ =~= seq!['0']);
    assert("GPU"@ =~= seq!['G', 'P', 'U']);
}

/// Only the first line is read, without blank ends, and commas part its fields.
pub proof fn first_line_is_read(line: Seq<char>, rest: Seq<char>)
    requires
        !line.contains('\n'),
    ensures
        fields_of(line + seq!['\n'] + rest) == text::pieces(text::trimmed(line), ','),
        fields_of(line) == text::pieces(text::trimmed(line), ','),
{
    text::lines_part_at_feed(line, rest);
    text::text_without_feed_is_a_line(line);
    assert(text::nth_or_empty(text::lines(line), 0) =~= line);
    if line.len() > 0 && line.last() == '\r' {
        text::blank_end_is_dropped(line.drop_last(), seq!['\r']);
        assert(line.drop_last() + seq!['\r'] =~= line);
    }
}

/// `s` is a field as it is printed: not empty, on one line, without commas and blank ends.
pub open spec fn plain_field(s: Seq<char>) -> bool {
    s.len() > 0 && !s.contains(',') && !s.contains('\n') && !text::space(s[0]) && !text::space(
        s.last(),
    )
}

/// A field after a comma and a blank is read as it is printed.
proof fn lemma_next_field(s: Seq<char>, rest: Seq<char>)
    requires
        plain_field(s),
    ensures
        text::pieces(seq![' '] + s + seq![','] + rest, ',') == seq![seq![' '] + s] + text::pieces(
            rest,
            ',',
        ),
        text::pieces(seq![' '] + s, ',') == seq![seq![' '] + s],
        text::trimmed(seq![' '] + s) == s,
{
    let f = seq![' '] + s;
    assert(!f.contains(',')) by {
        if f.contains(',') {
            let k = choose|k: int| 0 <= k < f.len() && f[k] == ',';
            assert(s[k - 1] == ',');
        }
    }
    text::pieces_part_at_each(f, ',', rest);
    text::trimming_drops_blank_ends(seq![' '], s, Seq::empty());
    assert(f + Seq::empty() =~= f);
}

/// Text on one line stays on one line with a comma between, or a blank in front.
proof fn lemma_one_line(a: Seq<char>, b: Seq<char>)
    requires
        !a.contains('\n'),
        !b.contains('\n'),
    ensures
        !(a + seq![','] + b).contains('\n'),
        !(seq![' '] + a).contains('\n'),
        !(seq![' '] + b).contains('\n'),
{
    let s = a + seq![','] + b;
    if s.contains('\n') {
        let k = choose|k: int| 0 <= k < s.len() && s[k] == '\n';
        if k < a.len() {
            assert(a[k] == '\n');
        } else {
            assert(b[k - a.len() - 1] == '\n');
        }
    }
    let l = seq![' '] + a;
    if l.contains('\n') {
        let k = choose|k: int| 0 <= k < l.len() && l[k] == '\n';
        assert(a[k - 1] == '\n');
    }
    let r = seq![' '] + b;
    if r.contains('\n') {
        let k = choose|k: int| 0 <= k < r.len() && r[k] == '\n';
        assert(b[k - 1] == '\n');
    }
}

/// Fields with a comma and a blank between them.
pub open spec fn card_line(
    first: Seq<char>,
    temp: Seq<char>,
    power: Seq<char>,
    used: Seq<char>,
    total: Seq<char>,
    name: Seq<char>,
) -> Seq<char> {
    first + seq![','] + (seq![' '] + temp + seq![','] + (seq![' '] + power + seq![','] + (seq![' ']
        + used + seq![','] + (seq![' '] + total + seq![','] + (seq![' '] + name)))))
}

/// The pieces of such a line are its fields.
proof fn lemma_card_fields(
    first: Seq<char>,
    temp: Seq<char>,
    power: Seq<char>,
    used: Seq<char>,
    total: Seq<char>,
    name: Seq<char>,
)
    requires
        plain_field(first),
        plain_field(temp),
        plain_field(power),
        plain_field(used),
        plain_field(total),
        plain_field(name),
    ensures
        text::pieces(card_line(first, temp, power, used, total, name), ',') == seq![
            first,
            seq![' '] + temp,
            seq![' '] + power,
            seq![' '] + used,
            seq![' '] + total,
            seq![' '] + name,
        ],
        !card_line(first, temp, power, used, total, name).contains('\n'),
{
    let t5 = seq![' '] + name;
    let t4 = seq![' '] + total + seq![','] + t5;
    let t3 = seq![' '] + used + seq![','] + t4;
    let t2 = seq![' '] + power + seq![','] + t3;
    let t1 = seq![' '] + temp + seq![','] + t2;
    assert(text::pieces(t4, ',') == seq![seq![' '] + total, t5]) by {
        lemma_next_field(name, t5);
        lemma_next_field(total, t5);
    }
    assert(text::pieces(t3, ',') =~= seq![seq![' '] + used, seq![' '] + total, t5]) by {
        lemma_next_field(used, t4);
    }
    assert(text::pieces(t2, ',') =~= seq![
        seq![' '] + power,
        seq![' '] + used,
        seq![' '] + total,
        t5,
    ]) by {
        lemma_next_field(power, t3);
    }
    assert(text::pieces(t1, ',') =~= seq![
        seq![' '] + temp,
        seq![' '] + power,
        seq![' '] + used,
        seq![' '] + total,
        t5,
    ]) by {
        lemma_next_field(temp, t2);
    }
    text::pieces_part_at_each(first, ',', t1);
    assert(!t4.contains('\n')) by {
        lemma_one_line(total, name);
        lemma_one_line(seq![' '] + total, t5);
    }
    assert(!t3.contains('\n')) by {
        lemma_one_line(used, used);
        lemma_one_line(seq![' '] + used, t4);
    }
    assert(!t2.contains('\n')) by {
        lemma_one_line(power, power);
        lemma_one_line(seq![' '] + power, t3);
    }
    assert(!t1.contains('\n')) by {
        lemma_one_line(temp, temp);
        lemma_one_line(seq![' '] + temp, t2);
    }
    lemma_one_line(first, t1);
}

/// The line that is printed for a card says its use, its temperature, its power, its memory in
/// use and in all, and its name, in this order.
pub proof fn printed_card_is_read(
    n: nat,
    temp: Seq<char>,
    power: Seq<char>,
    used: Seq<char>,
    total: Seq<char>,
    name: Seq<char>,
    rest: Seq<char>,
)
    requires
        n <= 100,
        plain_field(temp),
        plain_field(power),
        plain_field(used),
        plain_field(total),
        plain_field(name),
    ensures
        gpu_of(
            fields_of(
                card_line(number::decimal(n), temp, power, used, total, name) + seq!['\n'] + rest,
            ),
        ) == (Gpu {
            available: true,
            percent: Some(n as u8),
            temp_c: Some(temp),
            power_w: Some(power),
            vram_used_mb: Some(used),
            vram_total_mb: Some(total),
            name: Some(name),
        }),
{
    let d = number::decimal(n);
    let line = card_line(d, temp, power, used, total, name);
    assert(plain_field(d)) by {
        number::decimal_is_the_numeral(n, d);
        number::lemma_decimal_spaceless(n);
    }
    lemma_card_fields(d, temp, power, used, total, name);
    assert(line[0] == d[0]);
    assert(line.last() == name.last());
    assert(text::trimmed(line) == line) by {
        text::trimming_drops_blank_ends(Seq::empty(), line, Seq::empty());
        assert(Seq::empty() + line + Seq::empty() =~= line);
    }
    first_line_is_read(line, rest);
    let fields = text::pieces(line, ',');
    assert(text::trimmed(d) == d) by {
        number::lemma_decimal_spaceless(n);
    }
    lemma_next_field(temp, temp);
    lemma_next_field(power, power);
    lemma_next_field(used, used);
    lemma_next_field(total, total);
    lemma_next_field(name, name);
    use_is_read(fields, n);
    fields_are_readings(fields);
}

/// What was printed is read where the command succeeded and printed text.
pub proof fn only_success_is_read(out: CommandOutput)
    ensures
        out.success && vstd::utf8::valid_utf8(out.stdout@) ==> gpu_after(Some(out)) == gpu_of(
            fields_of(vstd::utf8::decode_utf8(out.stdout@)),
        ),
        out.success && !vstd::utf8::valid_utf8(out.stdout@) ==> gpu_after(Some(out)) == gpu_of(
            fields_of(outside::lossy(out.stdout@)),
        ),
        !out.success ==> gpu_after(Some(out)) == gpu_after(None),
        gpu_after(None) == (Gpu {
            available: false,
            percent: None,
            power_w: None,
            temp_c: None,
            vram_used_mb: None,
            vram_total_mb: None,
            name: None,
        }),
{
}

/// The content of a card is what its fields hold.
pub proof fn contents_are_fields(g: GpuInfo)
    ensures
        g@.available == g.available,
        g@.percent == g.percent,
        g.power_w is None ==> g@.power_w is None,
        g.power_w matches Some(s) ==> g@.power_w == Some(s@),
        g.temp_c is None ==> g@.temp_c is None,
        g.temp_c matches Some(s) ==> g@.temp_c == Some(s@),
        g.vram_used_mb is None ==> g@.vram_used_mb is None,
        g.vram_used_mb matches Some(s) ==> g@.vram_used_mb == Some(s@),
        g.vram_total_mb is None ==> g@.vram_total_mb is None,
        g.vram_total_mb matches Some(s) ==> g@.vram_total_mb == Some(s@),
        g.name is None ==> g@.name is None,
        g.name matches Some(s) ==> g@.name == Some(s@),
{
}

} // verus!
