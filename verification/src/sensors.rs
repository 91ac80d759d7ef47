//! Temperatures and fans, from what the files under `/sys/class` hold.

use crate::number;
use crate::text;
use vstd::prelude::*;

verus! {

/// One entry of `/sys/class/thermal`.
pub struct ThermalZone {
    /// The name of its directory.
    pub name: String,
    /// What its `type` file holds.
    pub kind: Option<String>,
    /// What its `temp` file holds.
    pub temp: Option<String>,
}

/// One file in the directory of a monitoring chip.
pub struct ChipFile {
    /// Its name.
    pub name: String,
    /// What it holds.
    pub data: Option<String>,
}

/// One entry of `/sys/class/hwmon`.
pub struct Chip {
    /// What its `name` file holds.
    pub name: Option<String>,
    /// Its files, where its directory can be read.
    pub files: Option<Vec<ChipFile>>,
}

/// A temperature.
pub struct SensorReading {
    /// The chip it belongs to.
    pub label: String,
    /// Degrees Celsius.
    pub temp_c: u8,
}

/// A fan.
pub struct FanReading {
    /// The chip it belongs to.
    pub label: String,
    /// Turns per minute.
    pub rpm: u32,
}

/// How many temperatures are shown.
pub const MAX_SENSORS: usize = 8;

/// How many fans are shown.
pub const MAX_FANS: usize = 4;

/// The text of a file that may be missing.
pub open spec fn text_or_empty(file: Option<String>) -> Seq<char> {
    match file {
        Some(s) => s@,
        None => Seq::empty(),
    }
}

/// The temperature that a file holds: its thousandth part, where that is plausible.
pub open spec fn degrees(data: Option<String>) -> Option<u8> {
    match number::as_i64(text::trimmed(text_or_empty(data))) {
        Some(raw) if 10_000 <= raw < 121_000 => Some((raw / 1000) as u8),
        _ => None,
    }
}

/// Reads a temperature in thousandths of a degree. What lies outside 10 to 120 degrees is no
/// temperature.
pub fn temp_milli_c(data: &Option<String>) -> (r: Option<u8>)
    ensures
        r == degrees(*data),
{
    match data {
        Some(s) => {
            let cs: Vec<char> = text::chars_of(s.as_str());
            match number::parse_i64(text::trim(&cs)) {
                Some(raw) => if 10_000 <= raw && raw < 121_000 {
                    Some((raw as u64 / 1000) as u8)
                } else {
                    None
                },
                None => None,
            }
        },
        None => {
            proof {
                text::lemma_trimmed_spaceless(Seq::empty());
            }
            None
        },
    }
}

/// Whether a zone is of a type.
pub open spec fn is_kind(zone: ThermalZone, kind: Seq<char>) -> bool {
    text::trimmed(text_or_empty(zone.kind)) == kind
}

/// The temperature of the first zone of a type.
pub open spec fn kind_temp(zones: Seq<ThermalZone>, kind: Seq<char>) -> Option<u8>
    decreases zones.len(),
{
    if zones.len() == 0 {
        None
    } else if is_kind(zones[0], kind) {
        degrees(zones[0].temp)
    } else {
        kind_temp(zones.skip(1), kind)
    }
}

/// The greatest temperature of the zones whose names start with `thermal_zone`.
pub open spec fn hottest(zones: Seq<ThermalZone>) -> Option<u8>
    decreases zones.len(),
{
    if zones.len() == 0 {
        None
    } else {
        let others = hottest(zones.drop_last());
        let zone = zones.last();
        if !"thermal_zone"@.is_prefix_of(zone.name@) {
            others
        } else {
            match (others, degrees(zone.temp)) {
                (Some(a), Some(b)) => Some(
                    if a > b {
                        a
                    } else {
                        b
                    },
                ),
                (Some(a), None) => Some(a),
                (None, b) => b,
            }
        }
    }
}

/// The temperature of the processor: that of the first zone of a processor's type, in the
/// order of the types, or else the hottest zone.
pub open spec fn cpu_temp(zones: Seq<ThermalZone>) -> Option<u8> {
    match kind_temp(zones, "x86_pkg_temp"@) {
        Some(t) => Some(t),
        None => match kind_temp(zones, "tctl"@) {
            Some(t) => Some(t),
            None => match kind_temp(zones, "cpu-thermal"@) {
                Some(t) => Some(t),
                None => hottest(zones),
            },
        },
    }
}

/// Finds the temperature of the first zone of a type.
pub fn thermal_zone_temp(zones: &Vec<ThermalZone>, kind: &str) -> (r: Option<u8>)
    ensures
        r == kind_temp(zones@, kind@),
{
    let mut i: usize = 0;
    assert(zones@.skip(0) =~= zones@);
    while i < zones.len()
        invariant
            i <= zones@.len(),
            kind_temp(zones@, kind@) == kind_temp(zones@.skip(i as int), kind@),
        decreases zones@.len() - i,
    {
        proof {
            assert(zones@.skip(i as int)[0] == zones@[i as int]);
            assert(zones@.skip(i as int).skip(1) =~= zones@.skip(i + 1));
        }
        let cs: Vec<char> = match &zones[i].kind {
            Some(s) => text::chars_of(s.as_str()),
            None => Vec::new(),
        };
        assert(cs@ =~= text_or_empty(zones@[i as int].kind));
        if text::same_text(text::trim(&cs), kind) {
            return temp_milli_c(&zones[i].temp);
        }
        i = i + 1;
    }
    None
}

/// Finds the hottest zone.
fn hottest_zone(zones: &Vec<ThermalZone>) -> (r: Option<u8>)
    ensures
        r == hottest(zones@),
{
    let mut best: Option<u8> = None;
    let mut i: usize = 0;
    assert(zones@.take(0) =~= Seq::empty());
    while i < zones.len()
        invariant
            i <= zones@.len(),
            best == hottest(zones@.take(i as int)),
        decreases zones@.len() - i,
    {
        proof {
            assert(zones@.take(i + 1).last() == zones@[i as int]);
            assert(zones@.take(i + 1).drop_last() =~= zones@.take(i as int));
        }
        if text::has_prefix(&text::chars_of(zones[i].name.as_str()), "thermal_zone") {
            if let Some(t) = temp_milli_c(&zones[i].temp) {
                best = match best {
                    Some(b) => if b > t {
                        Some(b)
                    } else {
                        Some(t)
                    },
                    None => Some(t),
                };
            }
        }
        i = i + 1;
    }
    assert(zones@.take(i as int) =~= zones@);
    best
}

/// Reads the temperature of the processor.
pub fn read_cpu_temp_c(zones: &Vec<ThermalZone>) -> (r: Option<u8>)
    ensures
        r == cpu_temp(zones@),
{
    if let Some(t) = thermal_zone_temp(zones, "x86_pkg_temp") {
        return Some(t);
    }
    if let Some(t) = thermal_zone_temp(zones, "tctl") {
        return Some(t);
    }
    if let Some(t) = thermal_zone_temp(zones, "cpu-thermal") {
        return Some(t);
    }
    hottest_zone(zones)
}

/// The name of an input file, such as `temp1_input` for `kind` `temp`.
pub open spec fn input_name(name: Seq<char>, kind: Seq<char>) -> bool {
    kind.is_prefix_of(name) && "_input"@.is_suffix_of(name)
}

/// Whether a file of a chip is an input of a kind.
pub fn is_input(name: &str, kind: &str) -> (r: bool)
    ensures
        r == input_name(name@, kind@),
{
    let cs: Vec<char> = text::chars_of(name);
    text::has_prefix(&cs, kind) && text::has_suffix(&cs, "_input")
}

/// The label of a chip, or `default` where its name cannot be read.
pub open spec fn label_of(chip: Chip, default: Seq<char>) -> Seq<char> {
    match chip.name {
        Some(s) => text::trimmed(s@),
        None => default,
    }
}

/// Reads the label of a chip.
fn read_label(chip: &Chip, default: &str) -> (r: String)
    ensures
        r@ == label_of(*chip, default@),
{
    match &chip.name {
        Some(s) => text::text_of(text::trim(&text::chars_of(s.as_str()))),
        None => default.to_owned(),
    }
}

/// The files of a chip; none where its directory cannot be read.
pub open spec fn files_of(chip: Chip) -> Seq<ChipFile> {
    match chip.files {
        Some(files) => files@,
        None => Seq::empty(),
    }
}

/// The first temperature among files.
pub open spec fn first_temp(files: Seq<ChipFile>) -> Option<u8>
    decreases files.len(),
{
    if files.len() == 0 {
        None
    } else if input_name(files[0].name@, "temp"@) && degrees(files[0].data) is Some {
        degrees(files[0].data)
    } else {
        first_temp(files.skip(1))
    }
}

/// The speed that a file holds, where it is plausible.
pub open spec fn turns(data: Option<String>) -> Option<u32> {
    match number::as_u32(text::trimmed(text_or_empty(data))) {
        Some(rpm) if 0 < rpm < 50_000 => Some(rpm),
        _ => None,
    }
}

/// The first speed among files.
pub open spec fn first_fan(files: Seq<ChipFile>) -> Option<u32>
    decreases files.len(),
{
    if files.len() == 0 {
        None
    } else if input_name(files[0].name@, "fan"@) && turns(files[0].data) is Some {
        turns(files[0].data)
    } else {
        first_fan(files.skip(1))
    }
}

/// The temperatures of chips, one for each that has one.
pub open spec fn chip_temps(chips: Seq<Chip>) -> Seq<(Seq<char>, u8)>
    decreases chips.len(),
{
    if chips.len() == 0 {
        Seq::empty()
    } else {
        let before = chip_temps(chips.drop_last());
        match first_temp(files_of(chips.last())) {
            Some(t) => before.push((label_of(chips.last(), "sensor"@), t)),
            None => before,
        }
    }
}

/// The fans of chips, one for each that has one.
pub open spec fn chip_fans(chips: Seq<Chip>) -> Seq<(Seq<char>, u32)>
    decreases chips.len(),
{
    if chips.len() == 0 {
        Seq::empty()
    } else {
        let before = chip_fans(chips.drop_last());
        match first_fan(files_of(chips.last())) {
            Some(rpm) => before.push((label_of(chips.last(), "fan"@), rpm)),
            None => before,
        }
    }
}

/// The first `n` of `s`.
pub open spec fn at_most<T>(s: Seq<T>, n: int) -> Seq<T> {
    if s.len() <= n {
        s
    } else {
        s.take(n)
    }
}

impl View for SensorReading {
    type V = (Seq<char>, u8);

    open spec fn view(&self) -> (Seq<char>, u8) {
        (self.label@, self.temp_c)
    }
}

impl View for FanReading {
    type V = (Seq<char>, u32);

    open spec fn view(&self) -> (Seq<char>, u32) {
        (self.label@, self.rpm)
    }
}

/// The contents of temperatures, one by one.
pub open spec fn temps(v: Seq<SensorReading>) -> Seq<(Seq<char>, u8)> {
    v.map_values(|s: SensorReading| s@)
}

/// The contents of fans, one by one.
pub open spec fn fans(v: Seq<FanReading>) -> Seq<(Seq<char>, u32)> {
    v.map_values(|f: FanReading| f@)
}

/// Reads a speed in turns per minute. What is not between 0 and 50000 is no speed.
pub fn fan_rpm(data: &Option<String>) -> (r: Option<u32>)
    ensures
        r == turns(*data),
{
    match data {
        Some(s) => match number::parse_u32(text::trim(&text::chars_of(s.as_str()))) {
            Some(rpm) => if rpm > 0 && rpm < 50_000 {
                Some(rpm)
            } else {
                None
            },
            None => None,
        },
        None => {
            proof {
                text::lemma_trimmed_spaceless(Seq::empty());
            }
            None
        },
    }
}

/// Finds the first temperature among files.
fn find_temp(files: &Vec<ChipFile>) -> (r: Option<u8>)
    ensures
        r == first_temp(files@),
{
    let mut i: usize = 0;
    assert(files@.skip(0) =~= files@);
    while i < files.len()
        invariant
            i <= files@.len(),
            first_temp(files@) == first_temp(files@.skip(i as int)),
        decreases files@.len() - i,
    {
        proof {
            assert(files@.skip(i as int)[0] == files@[i as int]);
            assert(files@.skip(i as int).skip(1) =~= files@.skip(i + 1));
        }
        if is_input(files[i].name.as_str(), "temp") {
            if let Some(t) = temp_milli_c(&files[i].data) {
                return Some(t);
            }
        }
        i = i + 1;
    }
    None
}

/// Finds the first speed among files.
fn find_fan(files: &Vec<ChipFile>) -> (r: Option<u32>)
    ensures
        r == first_fan(files@),
{
    let mut i: usize = 0;
    assert(files@.skip(0) =~= files@);
    while i < files.len()
        invariant
            i <= files@.len(),
            first_fan(files@) == first_fan(files@.skip(i as int)),
        decreases files@.len() - i,
    {
        proof {
            assert(files@.skip(i as int)[0] == files@[i as int]);
            assert(files@.skip(i as int).skip(1) =~= files@.skip(i + 1));
        }
        if is_input(files[i].name.as_str(), "fan") {
            if let Some(rpm) = fan_rpm(&files[i].data) {
                return Some(rpm);
            }
        }
        i = i + 1;
    }
    None
}

/// Reads one temperature of each chip, of the first chips that have one.
pub fn read_thermal_sensors(chips: &Vec<Chip>) -> (out: Vec<SensorReading>)
    ensures
        temps(out@) == at_most(chip_temps(chips@), MAX_SENSORS as int),
{
    let mut out: Vec<SensorReading> = Vec::new();
    let mut i: usize = 0;
    assert(chips@.take(0) =~= Seq::empty());
    assert(temps(out@) =~= Seq::empty());
    while i < chips.len()
        invariant
            i <= chips@.len(),
            temps(out@) == chip_temps(chips@.take(i as int)),
        decreases chips@.len() - i,
    {
        let ghost before = out@;
        proof {
            assert(chips@.take(i + 1).last() == chips@[i as int]);
            assert(chips@.take(i + 1).drop_last() =~= chips@.take(i as int));
        }
        let label: String = read_label(&chips[i], "sensor");
        if let Some(files) = &chips[i].files {
            if let Some(temp_c) = find_temp(files) {
                out.push(SensorReading { label, temp_c });
                assert(temps(out@) =~= temps(before).push(out@.last()@));
            }
        }
        i = i + 1;
    }
    assert(chips@.take(i as int) =~= chips@);
    let ghost all = out@;
    out.truncate(MAX_SENSORS);
    assert(temps(out@) =~= at_most(temps(all), MAX_SENSORS as int));
    out
}

/// Reads one fan of each chip, of the first chips that have one.
pub fn read_fans(chips: &Vec<Chip>) -> (out: Vec<FanReading>)
    ensures
        fans(out@) == at_most(chip_fans(chips@), MAX_FANS as int),
{
    let mut out: Vec<FanReading> = Vec::new();
    let mut i: usize = 0;
    assert(chips@.take(0) =~= Seq::empty());
    assert(fans(out@) =~= Seq::empty());
    while i < chips.len()
        invariant
            i <= chips@.len(),
            fans(out@) == chip_fans(chips@.take(i as int)),
        decreases chips@.len() - i,
    {
        let ghost before = out@;
        proof {
            assert(chips@.take(i + 1).last() == chips@[i as int]);
            assert(chips@.take(i + 1).drop_last() =~= chips@.take(i as int));
        }
        let label: String = read_label(&chips[i], "fan");
        if let Some(files) = &chips[i].files {
            if let Some(rpm) = find_fan(files) {
                out.push(FanReading { label, rpm });
                assert(fans(out@) =~= fans(before).push(out@.last()@));
            }
        }
        i = i + 1;
    }
    assert(chips@.take(i as int) =~= chips@);
    let ghost all = out@;
    out.truncate(MAX_FANS);
    assert(fans(out@) =~= at_most(fans(all), MAX_FANS as int));
    out
}

/// Every temperature that is shown for the processor is plausible.
pub proof fn cpu_temp_is_plausible(zones: Seq<ThermalZone>)
    ensures
        cpu_temp(zones) matches Some(t) ==> 10 <= t <= 120,
{
    lemma_kind_temp(zones, "x86_pkg_temp"@);
    lemma_kind_temp(zones, "tctl"@);
    lemma_kind_temp(zones, "cpu-thermal"@);
    lemma_hottest(zones);
}

/// The temperature of a type is plausible.
proof fn lemma_kind_temp(zones: Seq<ThermalZone>, kind: Seq<char>)
    ensures
        kind_temp(zones, kind) matches Some(t) ==> 10 <= t <= 120,
    decreases zones.len(),
{
    if zones.len() > 0 {
        lemma_kind_temp(zones.skip(1), kind);
    }
}

/// The temperature of the hottest zone is plausible.
proof fn lemma_hottest(zones: Seq<ThermalZone>)
    ensures
        hottest(zones) matches Some(t) ==> 10 <= t <= 120,
    decreases zones.len(),
{
    if zones.len() > 0 {
        lemma_hottest(zones.drop_last());
    }
}

/// The hottest zone is one of the zones, and none is hotter; there is none only where no zone
/// has a temperature.
pub proof fn hottest_is_greatest(zones: Seq<ThermalZone>)
    ensures
        forall|i: int|
            0 <= i < zones.len() && "thermal_zone"@.is_prefix_of(zones[i].name@) && degrees(
                #[trigger] zones[i].temp,
            ) is Some ==> hottest(zones) is Some && degrees(zones[i].temp)->0 <= hottest(zones)->0,
        hottest(zones) is Some ==> exists|i: int|
            0 <= i < zones.len() && "thermal_zone"@.is_prefix_of(zones[i].name@) && degrees(
                #[trigger] zones[i].temp,
            ) == hottest(zones),
    decreases zones.len(),
{
    if zones.len() > 0 {
        let t = zones.drop_last();
        let n = t.len() as int;
        hottest_is_greatest(t);
        assert forall|i: int|
            0 <= i < zones.len() && "thermal_zone"@.is_prefix_of(zones[i].name@) && degrees(
                #[trigger] zones[i].temp,
            ) is Some implies hottest(zones) is Some && degrees(zones[i].temp)->0 <= hottest(
            zones,
        )->0 by {
            if i < n {
                assert(t[i] == zones[i]);
                assert(degrees(t[i].temp) is Some);
            }
        }
        if hottest(zones) is Some {
            if hottest(t) == hottest(zones) {
                let i = choose|i: int|
                    0 <= i < t.len() && "thermal_zone"@.is_prefix_of(t[i].name@) && degrees(
                        #[trigger] t[i].temp,
                    ) == hottest(t);
                assert(zones[i] == t[i]);
                assert(degrees(zones[i].temp) == hottest(zones));
            } else {
                assert(degrees(zones[n].temp) == hottest(zones));
            }
        }
    }
}

/// No more temperatures are shown than the limit, at most one of each chip, and all plausible.
pub proof fn shown_temps_are_plausible(chips: Seq<Chip>)
    ensures
        ({
            let shown = at_most(chip_temps(chips), MAX_SENSORS as int);
            &&& shown.len() <= MAX_SENSORS
            &&& shown.len() <= chips.len()
            &&& forall|i: int| 0 <= i < shown.len() ==> 10 <= (#[trigger] shown[i]).1 <= 120
        }),
{
    lemma_chip_temps(chips);
}

/// No more fans are shown than the limit, at most one of each chip, and all plausible.
pub proof fn shown_fans_are_plausible(chips: Seq<Chip>)
    ensures
        ({
            let shown = at_most(chip_fans(chips), MAX_FANS as int);
            &&& shown.len() <= MAX_FANS
            &&& shown.len() <= chips.len()
            &&& forall|i: int| 0 <= i < shown.len() ==> 0 < (#[trigger] shown[i]).1 < 50_000
        }),
{
    lemma_chip_fans(chips);
}

/// Each chip has at most one temperature, and every temperature is plausible.
proof fn lemma_chip_temps(chips: Seq<Chip>)
    ensures
        chip_temps(chips).len() <= chips.len(),
        forall|i: int|
            0 <= i < chip_temps(chips).len() ==> 10 <= #[trigger] chip_temps(chips)[i].1 <= 120,
    decreases chips.len(),
{
    if chips.len() > 0 {
        lemma_chip_temps(chips.drop_last());
        lemma_first_temp(files_of(chips.last()));
        assert forall|i: int| 0 <= i < chip_temps(chips).len() implies 10 <= #[trigger] chip_temps(
            chips,
        )[i].1 <= 120 by {
            if i < chip_temps(chips.drop_last()).len() {
                assert(chip_temps(chips)[i] == chip_temps(chips.drop_last())[i]);
            }
        }
    }
}

/// The first temperature among files is plausible.
proof fn lemma_first_temp(files: Seq<ChipFile>)
    ensures
        first_temp(files) matches Some(t) ==> 10 <= t <= 120,
    decreases files.len(),
{
    if files.len() > 0 {
        lemma_first_temp(files.skip(1));
    }
}

/// Each chip has at most one fan, and every speed is plausible.
proof fn lemma_chip_fans(chips: Seq<Chip>)
    ensures
        chip_fans(chips).len() <= chips.len(),
        forall|i: int|
            0 <= i < chip_fans(chips).len() ==> 0 < #[trigger] chip_fans(chips)[i].1 < 50_000,
    decreases chips.len(),
{
    if chips.len() > 0 {
        lemma_chip_fans(chips.drop_last());
        lemma_first_fan(files_of(chips.last()));
        assert forall|i: int| 0 <= i < chip_fans(chips).len() implies 0 < #[trigger] chip_fans(
            chips,
        )[i].1 < 50_000 by {
            if i < chip_fans(chips.drop_last()).len() {
                assert(chip_fans(chips)[i] == chip_fans(chips.drop_last())[i]);
            }
        }
    }
}

/// The first speed among files is plausible.
proof fn lemma_first_fan(files: Seq<ChipFile>)
    ensures
        first_fan(files) matches Some(rpm) ==> 0 < rpm < 50_000,
    decreases files.len(),
{
    if files.len() > 0 {
        lemma_first_fan(files.skip(1));
    }
}

/// A file that holds the decimal digits of a number, with any blank text around them, is a
/// temperature of that many thousandths of a degree, rounded down, from 10 up to 120 degrees;
/// any other number is no temperature, and neither is one below zero.
pub proof fn temperature_is_read(data: String, below: String, l: Seq<char>, n: nat, r: Seq<char>)
    requires
        text::blank(l),
        text::blank(r),
        data@ == l + number::decimal(n) + r,
        below@ == l + (seq!['-'] + number::decimal(n)) + r,
    ensures
        10_000 <= n < 121_000 ==> (degrees(Some(data)) matches Some(d) && 1000 * d <= n < 1000 * d
            + 1000),
        n < 10_000 || 121_000 <= n ==> degrees(Some(data)) is None,
        degrees(Some(below)) is None,
{
    let d = number::decimal(n);
    number::decimal_is_read(n);
    number::decimal_is_the_numeral(n, d);
    number::lemma_decimal_spaceless(n);
    number::signs_are_read(d);
    text::trimming_drops_blank_ends(l, d, r);
    let m = seq!['-'] + d;
    assert(m[0] == '-' && m.last() == d.last());
    text::trimming_drops_blank_ends(l, m, r);
}

/// Whatever number a file holds is a temperature where it is in reach, and only there.
pub proof fn temperatures_are_plausible(data: String)
    ensures
        degrees(None) is None,
        number::as_i64(text::trimmed(data@)) is None ==> degrees(Some(data)) is None,
        number::as_i64(text::trimmed(data@)) matches Some(raw) ==> {
            &&& degrees(Some(data)) is Some <==> 10_000 <= raw <= 120_999
            &&& degrees(Some(data)) matches Some(d) ==> 1000 * d <= raw < 1000 * d + 1000
        },
{
    text::lemma_trimmed_spaceless(Seq::empty());
}

/// A file that holds the decimal digits of a number, with any blank text around them, is that
/// speed, above nothing and below fifty thousand; any other number is no speed.
pub proof fn speed_is_read(data: String, l: Seq<char>, n: nat, r: Seq<char>)
    requires
        text::blank(l),
        text::blank(r),
        data@ == l + number::decimal(n) + r,
    ensures
        0 < n < 50_000 ==> turns(Some(data)) == Some(n as u32),
        n == 0 || 50_000 <= n ==> turns(Some(data)) is None,
{
    number::decimal_is_read(n);
    number::lemma_decimal_spaceless(n);
    text::trimming_drops_blank_ends(l, number::decimal(n), r);
}

/// Whatever number a file holds is a speed where it is in reach, and only there.
pub proof fn speeds_are_plausible(data: String)
    ensures
        turns(None) is None,
        number::as_u32(text::trimmed(data@)) is None ==> turns(Some(data)) is None,
        number::as_u32(text::trimmed(data@)) matches Some(rpm) ==> {
            &&& turns(Some(data)) is Some <==> 1 <= rpm <= 49_999
            &&& turns(Some(data)) matches Some(t) ==> t == rpm
        },
{
    text::lemma_trimmed_spaceless(Seq::empty());
}

/// The first zone whose type is the one asked for decides, whether it has a temperature or
/// not; without one there is none.
pub proof fn first_zone_decides(
    a: Seq<ThermalZone>,
    zone: ThermalZone,
    b: Seq<ThermalZone>,
    kind: Seq<char>,
)
    requires
        forall|i: int|
            0 <= i < a.len() ==> (match (#[trigger] a[i]).kind {
                Some(s) => text::trimmed(s@) != kind,
                None => kind.len() > 0,
            }),
    ensures
        kind_temp(a, kind) is None,
        (match zone.kind {
            Some(s) => text::trimmed(s@) == kind,
            None => kind.len() == 0,
        }) ==> kind_temp(a + seq![zone] + b, kind) == degrees(zone.temp),
    decreases a.len(),
{
    let all = a + seq![zone] + b;
    text::lemma_trimmed_spaceless(Seq::empty());
    assert(kind.len() == 0 ==> kind =~= Seq::empty());
    if a.len() == 0 {
        assert(all[0] == zone);
    } else {
        let t = a.skip(1);
        assert(all[0] == a[0]);
        assert(all.skip(1) =~= t + seq![zone] + b);
        assert forall|i: int| 0 <= i < t.len() implies (match (#[trigger] t[i]).kind {
            Some(s) => text::trimmed(s@) != kind,
            None => kind.len() > 0,
        }) by {
            assert(t[i] == a[i + 1]);
        }
        first_zone_decides(t, zone, b, kind);
    }
}

/// Of the processor's own zones the first kind with a temperature is shown, and only without
/// any the hottest zone.
pub proof fn processor_zones_come_first(zones: Seq<ThermalZone>)
    ensures
        kind_temp(zones, "x86_pkg_temp"@) is Some ==> cpu_temp(zones) == kind_temp(
            zones,
            "x86_pkg_temp"@,
        ),
        kind_temp(zones, "x86_pkg_temp"@) is None && kind_temp(zones, "tctl"@) is Some ==> cpu_temp(
            zones,
        ) == kind_temp(zones, "tctl"@),
        kind_temp(zones, "x86_pkg_temp"@) is None && kind_temp(zones, "tctl"@) is None && kind_temp(
            zones,
            "cpu-thermal"@,
        ) is Some ==> cpu_temp(zones) == kind_temp(zones, "cpu-thermal"@),
        kind_temp(zones, "x86_pkg_temp"@) is None && kind_temp(zones, "tctl"@) is None && kind_temp(
            zones,
            "cpu-thermal"@,
        ) is None ==> cpu_temp(zones) == hottest(zones),
{
}

/// An input starts with its kind and ends as inputs do; between them may stand anything.
pub proof fn inputs_are_named(name: Seq<char>, kind: Seq<char>, between: Seq<char>)
    ensures
        input_name(kind + between + seq!['_', 'i', 'n', 'p', 'u', 't'], kind),
        input_name(name, kind) <==> name.len() >= kind.len() && name.take(kind.len() as int) == kind
            && name.len() >= 6 && name.skip(name.len() - 6) == seq!['_', 'i', 'n', 'p', 'u', 't'],
{
    reveal_strlit("_input");
    let end = seq!['_', 'i', 'n', 'p', 'u', 't'];
    assert("_input"@ =~= end);
    let whole = kind + between + end;
    assert(kind =~= whole.subrange(0, kind.len() as int));
    assert(end =~= whole.subrange(whole.len() - 6, whole.len() as int));
    if name.len() >= kind.len() {
        assert(name.take(kind.len() as int) =~= name.subrange(0, kind.len() as int));
    }
    if name.len() >= 6 {
        assert(name.skip(name.len() - 6) =~= name.subrange(name.len() - 6, name.len() as int));
    }
}

/// A chip is labelled with its name, without blank ends, where that can be read; its files are
/// those of its directory.
pub proof fn chips_are_labelled(chip: Chip, default: Seq<char>)
    ensures
        chip.name is None ==> label_of(chip, default) == default,
        chip.name matches Some(s) ==> label_of(chip, default) == text::trimmed(s@),
        chip.files is None ==> files_of(chip) == Seq::<ChipFile>::empty(),
        chip.files matches Some(files) ==> files_of(chip) == files@,
{
}

/// The temperature of a chip is the one in the first input that holds one.
pub proof fn first_temperature_is_taken(a: Seq<ChipFile>, file: ChipFile, b: Seq<ChipFile>)
    requires
        forall|i: int|
            0 <= i < a.len() ==> !input_name((#[trigger] a[i]).name@, seq!['t', 'e', 'm', 'p'])
                || degrees(a[i].data) is None,
    ensures
        first_temp(a) is None,
        input_name(file.name@, seq!['t', 'e', 'm', 'p']) && degrees(file.data) is Some
            ==> first_temp(a + seq![file] + b) == degrees(file.data),
    decreases a.len(),
{
    reveal_strlit("temp");
    assert("temp"@ =~= seq!['t', 'e', 'm', 'p']);
    let all = a + seq![file] + b;
    if a.len() == 0 {
        assert(all[0] == file);
    } else {
        let t = a.skip(1);
        assert(all[0] == a[0]);
        assert(all.skip(1) =~= t + seq![file] + b);
        assert forall|i: int| 0 <= i < t.len() implies !input_name(
            (#[trigger] t[i]).name@,
            seq!['t', 'e', 'm', 'p'],
        ) || degrees(t[i].data) is None by {
            assert(t[i] == a[i + 1]);
        }
        first_temperature_is_taken(t, file, b);
    }
}

/// The fan of a chip is the one in the first input that holds a speed.
pub proof fn first_speed_is_taken(a: Seq<ChipFile>, file: ChipFile, b: Seq<ChipFile>)
    requires
        forall|i: int|
            0 <= i < a.len() ==> !input_name((#[trigger] a[i]).name@, seq!['f', 'a', 'n'])
                || turns(a[i].data) is None,
    ensures
        first_fan(a) is None,
        input_name(file.name@, seq!['f', 'a', 'n']) && turns(file.data) is Some ==> first_fan(
            a + seq![file] + b,
        ) == turns(file.data),
    decreases a.len(),
{
    reveal_strlit("fan");
    assert("fan"@ =~= seq!['f', 'a', 'n']);
    let all = a + seq![file] + b;
    if a.len() == 0 {
        assert(all[0] == file);
    } else {
        let t = a.skip(1);
        assert(all[0] == a[0]);
        assert(all.skip(1) =~= t + seq![file] + b);
        assert forall|i: int| 0 <= i < t.len() implies !input_name(
            (#[trigger] t[i]).name@,
            seq!['f', 'a', 'n'],
        ) || turns(t[i].data) is None by {
            assert(t[i] == a[i + 1]);
        }
        first_speed_is_taken(t, file, b);
    }
}

/// Chips show their temperatures in turn, each under its label.
pub proof fn temperatures_come_in_turn(a: Seq<Chip>, chip: Chip, b: Seq<Chip>)
    ensures
        chip_temps(Seq::empty()) == Seq::<(Seq<char>, u8)>::empty(),
        chip_temps(seq![chip]) == (match first_temp(files_of(chip)) {
            Some(t) => seq![(label_of(chip, seq!['s', 'e', 'n', 's', 'o', 'r']), t)],
            None => Seq::empty(),
        }),
        chip_temps(a + b) == chip_temps(a) + chip_temps(b),
    decreases b.len(),
{
    reveal_strlit("sensor");
    assert("sensor"@ =~= seq!['s', 'e', 'n', 's', 'o', 'r']);
    reveal_with_fuel(chip_temps, 2);
    assert(seq![chip].drop_last() =~= Seq::empty());
    if b.len() == 0 {
        assert(a + b =~= a);
        assert(chip_temps(a) + chip_temps(b) =~= chip_temps(a));
    } else {
        let t = b.drop_last();
        temperatures_come_in_turn(a, chip, t);
        assert((a + b).drop_last() =~= a + t);
        assert((a + b).last() == b.last());
        assert(chip_temps(a + b) =~= chip_temps(a) + chip_temps(b));
    }
}

/// Chips show their fans in turn, each under its label.
pub proof fn speeds_come_in_turn(a: Seq<Chip>, chip: Chip, b: Seq<Chip>)
    ensures
        chip_fans(Seq::empty()) == Seq::<(Seq<char>, u32)>::empty(),
        chip_fans(seq![chip]) == (match first_fan(files_of(chip)) {
            Some(rpm) => seq![(label_of(chip, seq!['f', 'a', 'n']), rpm)],
            None => Seq::empty(),
        }),
        chip_fans(a + b) == chip_fans(a) + chip_fans(b),
    decreases b.len(),
{
    reveal_strlit("fan");
    assert("fan"@ =~= seq!['f', 'a', 'n']);
    reveal_with_fuel(chip_fans, 2);
    assert(seq![chip].drop_last() =~= Seq::empty());
    if b.len() == 0 {
        assert(a + b =~= a);
        assert(chip_fans(a) + chip_fans(b) =~= chip_fans(a));
    } else {
        let t = b.drop_last();
        speeds_come_in_turn(a, chip, t);
        assert((a + b).drop_last() =~= a + t);
        assert((a + b).last() == b.last());
        assert(chip_fans(a + b) =~= chip_fans(a) + chip_fans(b));
    }
}

/// The first eight temperatures and the first four fans are shown, in their order.
pub proof fn first_ones_are_shown(temps: Seq<(Seq<char>, u8)>, fans: Seq<(Seq<char>, u32)>)
    ensures
        temps.len() <= 8 ==> at_most(temps, MAX_SENSORS as int) == temps,
        temps.len() > 8 ==> at_most(temps, MAX_SENSORS as int) == temps.take(8),
        fans.len() <= 4 ==> at_most(fans, MAX_FANS as int) == fans,
        fans.len() > 4 ==> at_most(fans, MAX_FANS as int) == fans.take(4),
{
}

/// The contents of readings are what their fields hold, each at its place.
pub proof fn contents_are_fields(sensors: Seq<SensorReading>, speeds: Seq<FanReading>, i: int)
    ensures
        temps(sensors).len() == sensors.len(),
        fans(speeds).len() == speeds.len(),
        0 <= i < sensors.len() ==> temps(sensors)[i].0 == sensors[i].label@ && temps(sensors)[i].1
            == sensors[i].temp_c,
        0 <= i < speeds.len() ==> fans(speeds)[i].0 == speeds[i].label@ && fans(speeds)[i].1
            == speeds[i].rpm,
{
}

} // verus!
