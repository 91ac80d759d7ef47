//! The state that lasts from one snapshot to the next, and the snapshots.

use crate::cache;
use crate::command::CommandOutput;
use crate::cpu;
use crate::disk;
use crate::disk::DiskInfo;
use crate::gpu;
use crate::gpu::GpuInfo;
use crate::memory;
use crate::memory::RamInfo;
use crate::net;
use crate::number;
use crate::sensors;
use crate::sensors::{Chip, FanReading, SensorReading, ThermalZone};
use crate::share::Share;
use crate::text;
use crate::window;
use crate::window::AVG_SAMPLES;
use vstd::prelude::*;

verus! {

/// The longest time that cached counters are taken to be old, in milliseconds.
pub const MAX_CACHE_AGE_MS: u64 = 120_000;

/// Counters of an interface that a later reading is compared with.
pub struct NetPrev {
    /// The name of the interface.
    pub iface: String,
    /// Bytes received.
    pub rx: u64,
    /// Bytes sent.
    pub tx: u64,
    /// When the counters came in, on the monotonic clock, in nanoseconds.
    pub at_ns: u64,
    /// How old they were by then, in milliseconds.
    pub age_ms: u64,
}

/// The mathematical content of a [`NetPrev`].
pub struct NetPoint {
    pub iface: Seq<char>,
    pub rx: u64,
    pub tx: u64,
    pub at_ns: u64,
    pub age_ms: u64,
}

impl View for NetPrev {
    type V = NetPoint;

    open spec fn view(&self) -> NetPoint {
        NetPoint {
            iface: self.iface@,
            rx: self.rx,
            tx: self.tx,
            at_ns: self.at_ns,
            age_ms: self.age_ms,
        }
    }
}

/// What went through an interface in a stretch of time.
#[derive(Clone, Copy, Debug, PartialEq, Eq, Structural)]
pub struct Traffic {
    /// Bytes received.
    pub rx: u64,
    /// Bytes sent.
    pub tx: u64,
    /// The length of the stretch in nanoseconds.
    pub elapsed_ns: u128,
}

/// The network.
pub struct NetworkInfo {
    /// The default interface.
    pub iface: String,
    /// What went through it since the last reading, where that was of the same interface.
    pub traffic: Option<Traffic>,
    /// Its address, or nothing.
    pub ip: String,
}

/// The processor.
pub struct CpuInfo {
    /// How busy it was since the last reading.
    pub percent: u8,
    /// The average of the last percentages.
    pub avg_percent: u8,
    /// Degrees Celsius.
    pub temp_c: Option<u8>,
    /// Frequency in kHz.
    pub freq_khz: Option<u64>,
    /// The model.
    pub model: String,
    /// The number of processors.
    pub cores: u16,
}

/// Everything at one time.
pub struct Snapshot {
    pub cpu: CpuInfo,
    pub ram: RamInfo,
    pub gpu: GpuInfo,
    pub disks: Vec<DiskInfo>,
    pub network: NetworkInfo,
    pub sensors: Vec<SensorReading>,
    pub fans: Vec<FanReading>,
}

/// What was read from the system for one snapshot.
pub struct Readings {
    /// The ticks of `/proc/stat`.
    pub stat: Option<(u64, u64)>,
    /// The percentage that the processor's share of busy ticks rounds to, where there is one.
    pub busy_percent: u8,
    /// The thermal zones.
    pub zones: Vec<ThermalZone>,
    /// The frequency file of the first processor.
    pub freq: Option<String>,
    /// `/proc/meminfo`.
    pub meminfo: Option<String>,
    /// What `nvidia-smi` left behind.
    pub nvidia_smi: Option<CommandOutput>,
    /// What `df` left behind.
    pub df: Option<CommandOutput>,
    /// `/proc/net/route`.
    pub route: Option<String>,
    /// What `ip addr` printed for the default interface.
    pub addr: Option<Vec<u8>>,
    /// The counter of received bytes of the default interface.
    pub rx: Option<String>,
    /// The counter of sent bytes of the default interface.
    pub tx: Option<String>,
    /// The time at which the counters were read, on the monotonic clock, in nanoseconds.
    pub now_ns: u64,
    /// The monitoring chips.
    pub chips: Vec<Chip>,
}

/// The state that lasts from one snapshot to the next.
pub struct Collector {
    /// The model of the processor.
    pub cpu_model: String,
    /// The number of processors.
    pub cpu_cores: u16,
    /// The ticks that were last read: all and idle.
    pub cpu_prev: Option<(u64, u64)>,
    /// The last percentages.
    pub cpu_recent: Vec<u8>,
    /// The counters that were last read.
    pub net_prev: Option<NetPrev>,
    /// The name of the graphics card that was last seen.
    pub gpu_name_cache: Option<String>,
}

/// Milliseconds since the Unix epoch, in 64 bits; zero where the clock stands before it.
pub fn epoch_ms(since_epoch_ms: Option<u128>) -> (r: u64)
    ensures
        r as int == (match since_epoch_ms {
            Some(ms) => ms as int % 0x1_0000_0000_0000_0000,
            None => 0,
        }),
{
    match since_epoch_ms {
        Some(ms) => (ms % 0x1_0000_0000_0000_0000) as u64,
        None => 0,
    }
}

/// The file below a base directory in which the cache stands.
pub struct CachePath {
    /// The base directory.
    pub base: String,
    /// The path from there.
    pub below: String,
}

/// Where the cache stands: below the cache directory where one is set, else below the home
/// directory, else nowhere.
pub fn state_cache_path(xdg_cache_home: Option<String>, home: Option<String>) -> (r: Option<
    CachePath,
>)
    ensures
        match (xdg_cache_home, home) {
            (Some(base), _) => r is Some && r->0.base@ == base@ && r->0.below@
                == "cloudyy/system-monitor.state"@,
            (None, Some(base)) => r is Some && r->0.base@ == base@ && r->0.below@
                == ".cache/cloudyy/system-monitor.state"@,
            (None, None) => r is None,
        },
{
    if let Some(base) = xdg_cache_home {
        return Some(CachePath { base, below: "cloudyy/system-monitor.state".to_owned() });
    }
    match home {
        Some(base) => Some(
            CachePath { base, below: ".cache/cloudyy/system-monitor.state".to_owned() },
        ),
        None => None,
    }
}

/// The busy part of the ticks between two readings of `/proc/stat`, where the second is later.
/// Idle ticks that ran backwards count as none.
pub open spec fn busy_share(prev: Option<(u64, u64)>, stat: Option<(u64, u64)>) -> Option<Share> {
    match (prev, stat) {
        (Some((total0, idle0)), Some((total1, idle1))) if total1 > total0 => {
            let whole = (total1 - total0) as u64;
            Some(Share { part: number::minus(whole, number::minus(idle1, idle0)), whole })
        },
        _ => None,
    }
}

/// The percentage that is shown of a share that rounds to `busy_percent`: zero without a share
/// and where no tick was busy, a hundred where every tick was, and never more.
pub open spec fn shown_percent(share: Option<Share>, busy_percent: u8) -> u8 {
    match share {
        None => 0,
        Some(s) => if s.part == 0 {
            0
        } else if s.part == s.whole || busy_percent > 100 {
            100
        } else {
            busy_percent
        },
    }
}

/// How old counters are that were saved at `saved_ms`: no less than nothing, and no more than
/// the limit.
pub open spec fn cache_age(saved_ms: u64, epoch_ms: u64) -> u64 {
    let age = number::minus(epoch_ms, saved_ms);
    if age > MAX_CACHE_AGE_MS {
        MAX_CACHE_AGE_MS
    } else {
        age
    }
}

/// The counters that a cached record stands for at a time.
pub open spec fn point_of(net: cache::NetRecord, epoch_ms: u64, now_ns: u64) -> NetPoint {
    NetPoint {
        iface: net.iface,
        rx: net.rx,
        tx: net.tx,
        at_ns: now_ns,
        age_ms: cache_age(net.epoch_ms, epoch_ms),
    }
}

/// The time between the counters `prev` and `now_ns`, in nanoseconds.
pub open spec fn elapsed(prev: NetPoint, now_ns: u64) -> int {
    number::minus(now_ns, prev.at_ns) + prev.age_ms * 1_000_000
}

/// What went through an interface since the counters `prev`, where those are of the same
/// interface. Counters that ran backwards count as no traffic.
pub open spec fn traffic_since(
    prev: Option<NetPoint>,
    iface: Seq<char>,
    rx: u64,
    tx: u64,
    now_ns: u64,
) -> Option<Traffic> {
    match prev {
        Some(p) if p.iface == iface => Some(
            Traffic {
                rx: number::minus(rx, p.rx),
                tx: number::minus(tx, p.tx),
                elapsed_ns: elapsed(p, now_ns) as u128,
            },
        ),
        _ => None,
    }
}

/// The shortest time that a rate is taken over, in nanoseconds.
pub const MIN_RATE_WINDOW_NS: u128 = 1_000_000;

/// The time that a rate is taken over: what has elapsed, but at least a millisecond.
pub fn rate_window_ns(elapsed_ns: u128) -> (r: u128)
    ensures
        r == (if elapsed_ns < MIN_RATE_WINDOW_NS {
            MIN_RATE_WINDOW_NS
        } else {
            elapsed_ns
        }),
        elapsed_ns <= 1_000_000 ==> r == 1_000_000,
        elapsed_ns >= 1_000_000 ==> r == elapsed_ns,
{
    if elapsed_ns < MIN_RATE_WINDOW_NS {
        MIN_RATE_WINDOW_NS
    } else {
        elapsed_ns
    }
}

/// The content of counters that may be missing.
pub open spec fn point(prev: Option<NetPrev>) -> Option<NetPoint> {
    match prev {
        Some(p) => Some(p@),
        None => None,
    }
}

/// The text of an optional string.
fn as_text<'a>(s: &'a Option<String>) -> (r: Option<&'a str>)
    ensures
        r.deep_view() == s.deep_view(),
{
    match s {
        Some(t) => Some(t.as_str()),
        None => None,
    }
}

impl Collector {
    /// The window is never longer than its limit, and holds percentages.
    pub open spec fn wf(&self) -> bool {
        self.cpu_recent@.len() <= AVG_SAMPLES && window::percentages(self.cpu_recent@)
    }

    /// What a cache file should hold of the state.
    pub open spec fn to_save(&self, epoch_ms: u64) -> cache::Record {
        cache::Record {
            cpu: self.cpu_prev,
            net: match self.net_prev {
                Some(p) => Some(
                    cache::NetRecord { iface: p.iface@, rx: p.rx, tx: p.tx, epoch_ms },
                ),
                None => None,
            },
        }
    }

    /// The state at the start: what `/proc/cpuinfo` says, and what the cache holds.
    pub fn new(
        cpuinfo: Option<&str>,
        cached: Option<&str>,
        epoch_ms: u64,
        now_ns: u64,
    ) -> (r: Collector)
        ensures
            r.wf(),
            r.cpu_model@ == cpu::model_of(text::lines_of(cpuinfo.deep_view())),
            r.cpu_cores == cpu::cores_of(text::lines_of(cpuinfo.deep_view())),
            r.cpu_recent@ == Seq::<u8>::empty(),
            r.gpu_name_cache is None,
            r.cpu_prev == (match cached {
                Some(c) => cache::record(c@).cpu,
                None => None,
            }),
            point(r.net_prev) == (match cached {
                Some(c) => match cache::record(c@).net {
                    Some(net) => Some(point_of(net, epoch_ms, now_ns)),
                    None => None,
                },
                None => None,
            }),
    {
        let mut c: Collector = Collector {
            cpu_model: cpu::read_cpu_model(cpuinfo),
            cpu_cores: cpu::read_cpu_cores(cpuinfo),
            cpu_prev: None,
            cpu_recent: Vec::new(),
            net_prev: None,
            gpu_name_cache: None,
        };
        c.load_cached_state(cached, epoch_ms, now_ns);
        c
    }

    /// Takes over what a cache file holds. What it does not hold stays as it is.
    pub fn load_cached_state(&mut self, cached: Option<&str>, epoch_ms: u64, now_ns: u64)
        ensures
            final(self).cpu_prev == (match cached {
                Some(c) if cache::record(c@).cpu is Some => cache::record(c@).cpu,
                _ => old(self).cpu_prev,
            }),
            match cached {
                Some(c) if cache::record(c@).net is Some => point(final(self).net_prev) == Some(
                    point_of(cache::record(c@).net->0, epoch_ms, now_ns),
                ),
                _ => final(self).net_prev == old(self).net_prev,
            },
            final(self).cpu_model == old(self).cpu_model,
            final(self).cpu_cores == old(self).cpu_cores,
            final(self).cpu_recent == old(self).cpu_recent,
            final(self).gpu_name_cache == old(self).gpu_name_cache,
    {
        if let Some(c) = cached {
            let saved: cache::Saved = cache::read_cache(c);
            if saved.cpu.is_some() {
                self.cpu_prev = saved.cpu;
            }
            if let Some(n) = saved.net {
                let age: u64 = epoch_ms.saturating_sub(n.epoch_ms);
                self.net_prev = Some(
                    NetPrev {
                        iface: n.iface,
                        rx: n.rx,
                        tx: n.tx,
                        at_ns: now_ns,
                        age_ms: if age > MAX_CACHE_AGE_MS {
                            MAX_CACHE_AGE_MS
                        } else {
                            age
                        },
                    },
                );
            }
        }
    }

    /// The text for the cache file; none where there is nothing to keep.
    pub fn save_cached_state(&self, epoch_ms: u64) -> (r: Option<String>)
        ensures
            r.deep_view() == cache::cache_text(self.to_save(epoch_ms)),
    {
        let net: Option<cache::SavedNet> = match &self.net_prev {
            Some(p) => Some(
                cache::SavedNet { iface: p.iface.clone(), rx: p.rx, tx: p.tx, epoch_ms },
            ),
            None => None,
        };
        let saved: cache::Saved = cache::Saved { cpu: self.cpu_prev, net };
        assert(saved@ == self.to_save(epoch_ms));
        cache::write_cache(&saved)
    }

    /// The busy part of the ticks since the last reading.
    pub fn cpu_share(&self, stat: Option<(u64, u64)>) -> (r: Option<Share>)
        ensures
            r == busy_share(self.cpu_prev, stat),
            r is Some ==> r->0.wf(),
    {
        match (self.cpu_prev, stat) {
            (Some((total0, idle0)), Some((total1, idle1))) => if total1 > total0 {
                let whole: u64 = total1 - total0;
                let idle: u64 = idle1.saturating_sub(idle0);
                Some(Share { part: whole.saturating_sub(idle), whole })
            } else {
                None
            },
            _ => None,
        }
    }

    /// Takes in a reading of `/proc/stat`, and gives the percentage and the average of the
    /// last ones. `busy_percent` is what the busy share rounds to, at most a hundred; it is not
    /// asked where no tick was busy or every tick was. Without a share the percentage is zero.
    /// Without a reading nothing changes.
    pub fn read_cpu(&mut self, stat: Option<(u64, u64)>, busy_percent: u8) -> (r: (u8, u8))
        requires
            old(self).wf(),
        ensures
            final(self).wf(),
            r.0 == shown_percent(busy_share(old(self).cpu_prev, stat), busy_percent),
            r.1 == window::average(final(self).cpu_recent@),
            r.0 <= 100,
            r.1 <= 100,
            stat is Some ==> final(self).cpu_prev == stat && final(self).cpu_recent@
                == window::pushed(old(self).cpu_recent@, r.0),
            stat is None ==> final(self).cpu_prev == old(self).cpu_prev && final(self).cpu_recent
                == old(self).cpu_recent,
            final(self).cpu_model == old(self).cpu_model,
            final(self).cpu_cores == old(self).cpu_cores,
            final(self).net_prev == old(self).net_prev,
            final(self).gpu_name_cache == old(self).gpu_name_cache,
    {
        let mut percent: u8 = 0;
        if stat.is_some() {
            if let Some(share) = self.cpu_share(stat) {
                percent = if share.part == 0 {
                    0
                } else if share.part == share.whole || busy_percent > 100 {
                    100
                } else {
                    busy_percent
                };
            }
            self.cpu_prev = stat;
            window::push_recent(&mut self.cpu_recent, percent);
        }
        proof {
            window::percentages_stay(old(self).cpu_recent@, percent);
            window::lemma_sum_fits(self.cpu_recent@);
        }
        (percent, window::rolling_avg(&self.cpu_recent))
    }

    /// Takes in a reading of an interface's counters, and gives what went through it since the
    /// last one.
    pub fn read_network(
        &mut self,
        iface: String,
        ip: String,
        rx: u64,
        tx: u64,
        now_ns: u64,
    ) -> (r: NetworkInfo)
        ensures
            r.iface@ == iface@,
            r.ip@ == ip@,
            r.traffic == traffic_since(point(old(self).net_prev), iface@, rx, tx, now_ns),
            point(final(self).net_prev) == Some(
                (NetPoint { iface: iface@, rx, tx, at_ns: now_ns, age_ms: 0 }),
            ),
            final(self).cpu_model == old(self).cpu_model,
            final(self).cpu_cores == old(self).cpu_cores,
            final(self).cpu_prev == old(self).cpu_prev,
            final(self).cpu_recent == old(self).cpu_recent,
            final(self).gpu_name_cache == old(self).gpu_name_cache,
    {
        let mut traffic: Option<Traffic> = None;
        if let Some(p) = &self.net_prev {
            if p.iface == iface {
                let since: u64 = now_ns.saturating_sub(p.at_ns);
                traffic = Some(
                    Traffic {
                        rx: rx.saturating_sub(p.rx),
                        tx: tx.saturating_sub(p.tx),
                        elapsed_ns: since as u128 + p.age_ms as u128 * 1_000_000,
                    },
                );
            }
        }
        self.net_prev = Some(NetPrev { iface: iface.clone(), rx, tx, at_ns: now_ns, age_ms: 0 });
        NetworkInfo { iface, traffic, ip }
    }

    /// Makes a snapshot of what was read.
    pub fn sample(&mut self, readings: &Readings) -> (r: Snapshot)
        requires
            old(self).wf(),
        ensures
            final(self).wf(),
            r.cpu.percent == shown_percent(
                busy_share(old(self).cpu_prev, readings.stat),
                readings.busy_percent,
            ),
            r.cpu.avg_percent == window::average(final(self).cpu_recent@),
            r.cpu.percent <= 100,
            r.cpu.avg_percent <= 100,
            r.cpu.temp_c == sensors::cpu_temp(readings.zones@),
            r.cpu.freq_khz == cpu::khz_of(readings.freq.deep_view()),
            r.cpu.model@ == old(self).cpu_model@,
            r.cpu.cores == old(self).cpu_cores,
            r.ram == memory::ram_of(text::lines_of(readings.meminfo.deep_view())),
            r.gpu@ == gpu::gpu_after(readings.nvidia_smi),
            disk::disks(r.disks@) == disk::disks_of(readings.df),
            r.network.iface@ == net::iface_of(net::rows_of(readings.route.deep_view())),
            r.network.ip@ == net::address_of(readings.addr).unwrap_or(Seq::empty()),
            r.network.traffic == traffic_since(
                point(old(self).net_prev),
                net::iface_of(net::rows_of(readings.route.deep_view())),
                net::count_in(readings.rx.deep_view()),
                net::count_in(readings.tx.deep_view()),
                readings.now_ns,
            ),
            sensors::temps(r.sensors@) == sensors::at_most(
                sensors::chip_temps(readings.chips@),
                sensors::MAX_SENSORS as int,
            ),
            sensors::fans(r.fans@) == sensors::at_most(
                sensors::chip_fans(readings.chips@),
                sensors::MAX_FANS as int,
            ),
            readings.stat is Some ==> final(self).cpu_prev == readings.stat
                && final(self).cpu_recent@ == window::pushed(old(self).cpu_recent@, r.cpu.percent),
            readings.stat is None ==> final(self).cpu_prev == old(self).cpu_prev
                && final(self).cpu_recent == old(self).cpu_recent,
            point(final(self).net_prev) == Some(
                (NetPoint {
                    iface: r.network.iface@,
                    rx: net::count_in(readings.rx.deep_view()),
                    tx: net::count_in(readings.tx.deep_view()),
                    at_ns: readings.now_ns,
                    age_ms: 0,
                }),
            ),
            r.gpu@.available ==> final(self).gpu_name_cache.deep_view() == r.gpu@.name,
            !r.gpu@.available ==> final(self).gpu_name_cache == old(self).gpu_name_cache,
            final(self).cpu_model == old(self).cpu_model,
            final(self).cpu_cores == old(self).cpu_cores,
    {
        let (percent, avg_percent) = self.read_cpu(readings.stat, readings.busy_percent);
        let cpu_info: CpuInfo = CpuInfo {
            percent,
            avg_percent,
            temp_c: sensors::read_cpu_temp_c(&readings.zones),
            freq_khz: cpu::read_cpu_freq_khz(as_text(&readings.freq)),
            model: self.cpu_model.clone(),
            cores: self.cpu_cores,
        };
        let ram: RamInfo = memory::read_ram(as_text(&readings.meminfo));
        let gpu_info: GpuInfo = gpu::read_gpu(&readings.nvidia_smi, &mut self.gpu_name_cache);
        let disks: Vec<DiskInfo> = disk::read_disks(&readings.df);
        let (iface, ip) = net::default_iface_and_ip(as_text(&readings.route), &readings.addr);
        let (rx, tx) = net::iface_byte_counters(as_text(&readings.rx), as_text(&readings.tx));
        let network: NetworkInfo = self.read_network(iface, ip, rx, tx, readings.now_ns);
        Snapshot {
            cpu: cpu_info,
            ram,
            gpu: gpu_info,
            disks,
            network,
            sensors: sensors::read_thermal_sensors(&readings.chips),
            fans: sensors::read_fans(&readings.chips),
        }
    }
}

/// The busy share is always a proper fraction, so its percentage lies between 0 and 100.
pub proof fn busy_share_is_proper(prev: Option<(u64, u64)>, stat: Option<(u64, u64)>)
    ensures
        busy_share(prev, stat) matches Some(share) ==> share.wf(),
{
}

/// Without an earlier reading, or where no tick has passed since, there is no busy share.
pub proof fn busy_share_needs_ticks(prev: Option<(u64, u64)>, stat: Option<(u64, u64)>)
    ensures
        busy_share(prev, stat) is Some <==> prev is Some && stat is Some && (prev->0).0
            < (stat->0).0,
{
}

/// Every interface that a snapshot is about can be kept in the cache file.
pub proof fn sampled_iface_is_storable(rows: Seq<Seq<char>>)
    ensures
        cache::storable_name(net::iface_of(rows)),
{
    net::default_iface_is_a_word(rows);
    cache::word_is_storable(net::iface_of(rows));
}

/// A process that starts from the text that another one saved goes on where that one stopped:
/// it has its ticks and its counters, as old as the time between saving and loading, within
/// the limit.
pub proof fn next_process_goes_on(
    c: Collector,
    saved_ms: u64,
    loaded_ms: u64,
    now_ns: u64,
)
    requires
        cache::storable(c.to_save(saved_ms)),
        cache::cache_text(c.to_save(saved_ms)) is Some,
    ensures
        ({
            let loaded = cache::record(cache::cache_text(c.to_save(saved_ms))->0);
            &&& loaded.cpu == c.cpu_prev
            &&& match (c.net_prev, loaded.net) {
                (Some(p), Some(n)) => point_of(n, loaded_ms, now_ns) == (NetPoint {
                    iface: p.iface@,
                    rx: p.rx,
                    tx: p.tx,
                    at_ns: now_ns,
                    age_ms: cache_age(saved_ms, loaded_ms),
                }),
                (None, None) => true,
                _ => false,
            }
        }),
        cache_age(saved_ms, loaded_ms) <= MAX_CACHE_AGE_MS,
        saved_ms <= loaded_ms <= saved_ms + MAX_CACHE_AGE_MS ==> cache_age(saved_ms, loaded_ms)
            == loaded_ms - saved_ms,
{
    cache::cache_is_read_back(c.to_save(saved_ms));
}

/// Two readings of one interface differ by its traffic over the time between them; a reading
/// of another interface starts anew.
pub proof fn traffic_is_difference(
    prev: NetPoint,
    iface: Seq<char>,
    rx: u64,
    tx: u64,
    now_ns: u64,
)
    requires
        prev.rx <= rx,
        prev.tx <= tx,
        prev.at_ns <= now_ns,
    ensures
        traffic_since(Some(prev), iface, rx, tx, now_ns) == (if prev.iface == iface {
            Some(
                Traffic {
                    rx: (rx - prev.rx) as u64,
                    tx: (tx - prev.tx) as u64,
                    elapsed_ns: (now_ns - prev.at_ns + prev.age_ms * 1_000_000) as u128,
                },
            )
        } else {
            None
        }),
{
}

/// A command that is missing or fails shows no graphics card and no disks.
pub proof fn failed_commands_show_nothing(output: Option<CommandOutput>)
    requires
        output is None || !output->0.success,
    ensures
        gpu::gpu_after(output) == gpu::no_gpu(),
        disk::disks_of(output) == Seq::<disk::Disk>::empty(),
{
}

/// Between two readings every tick was either busy or idle: the whole is the ticks that went
/// by, and the busy part and the idle ticks make it up. Idle ticks that ran backwards count as
/// none, and more idle ticks than went by leave no busy part.
pub proof fn ticks_are_busy_or_idle(t0: u64, i0: u64, t1: u64, i1: u64)
    requires
        t0 < t1,
    ensures
        busy_share(Some((t0, i0)), Some((t1, i1))) matches Some(share) && {
            &&& share.whole == t1 - t0
            &&& i0 <= i1 && i1 - i0 <= t1 - t0 ==> share.part + (i1 - i0) == share.whole
            &&& i1 < i0 ==> share.part == share.whole
            &&& i1 - i0 > t1 - t0 ==> share.part == 0
        },
{
}

/// What the share rounds to is shown as it is, except at the ends: nothing is shown as zero,
/// everything as a hundred, and nothing as more.
pub proof fn percent_is_shown(part: u64, whole: u64, busy_percent: u8)
    ensures
        shown_percent(None, busy_percent) == 0,
        part == 0 ==> shown_percent(Some(Share { part, whole }), busy_percent) == 0,
        0 < part && part == whole ==> shown_percent(Some(Share { part, whole }), busy_percent)
            == 100,
        0 < part && part != whole && busy_percent <= 100 ==> shown_percent(
            Some(Share { part, whole }),
            busy_percent,
        ) == busy_percent,
        0 < part && part != whole && busy_percent > 100 ==> shown_percent(
            Some(Share { part, whole }),
            busy_percent,
        ) == 100,
{
}

/// Saved counters are as old as the time since then, between nothing and two minutes.
pub proof fn age_is_time_since(saved_ms: u64, epoch_ms: u64)
    ensures
        epoch_ms <= saved_ms ==> cache_age(saved_ms, epoch_ms) == 0,
        saved_ms <= epoch_ms <= saved_ms + 120_000 ==> saved_ms + cache_age(saved_ms, epoch_ms)
            == epoch_ms,
        saved_ms + 120_000 <= epoch_ms ==> cache_age(saved_ms, epoch_ms) == 120_000,
{
}

/// A cached record stands for its own counters, taken over now and as old as they are.
pub proof fn cached_counters_are_kept(net: cache::NetRecord, epoch_ms: u64, now_ns: u64)
    ensures
        point_of(net, epoch_ms, now_ns).iface == net.iface,
        point_of(net, epoch_ms, now_ns).rx == net.rx,
        point_of(net, epoch_ms, now_ns).tx == net.tx,
        point_of(net, epoch_ms, now_ns).at_ns == now_ns,
        point_of(net, epoch_ms, now_ns).age_ms == cache_age(net.epoch_ms, epoch_ms),
{
}

/// Counters of the same interface grow by the traffic, and those that did not grow show none;
/// the time is that between the readings and the age of the earlier one, in nanoseconds.
/// Without counters of the same interface there is no traffic.
pub proof fn traffic_is_growth(
    prev: NetPoint,
    iface: Seq<char>,
    rx: u64,
    tx: u64,
    now_ns: u64,
)
    ensures
        traffic_since(None, iface, rx, tx, now_ns) is None,
        prev.iface != iface ==> traffic_since(Some(prev), iface, rx, tx, now_ns) is None,
        prev.iface == iface ==> (traffic_since(Some(prev), iface, rx, tx, now_ns) matches Some(t)
            && {
            &&& prev.rx <= rx ==> prev.rx + t.rx == rx
            &&& rx <= prev.rx ==> t.rx == 0
            &&& prev.tx <= tx ==> prev.tx + t.tx == tx
            &&& tx <= prev.tx ==> t.tx == 0
            &&& prev.at_ns <= now_ns ==> prev.at_ns + t.elapsed_ns == now_ns + 1_000_000
                * prev.age_ms
            &&& now_ns <= prev.at_ns ==> t.elapsed_ns == 1_000_000 * prev.age_ms
        }),
{
}

/// The ticks are kept as they are, and the counters with the time of saving.
pub proof fn state_is_saved_as_it_is(c: Collector, epoch_ms: u64)
    ensures
        c.to_save(epoch_ms).cpu == c.cpu_prev,
        c.net_prev is None ==> c.to_save(epoch_ms).net is None,
        c.net_prev matches Some(p) ==> (c.to_save(epoch_ms).net matches Some(n) && n.iface
            == p.iface@ && n.rx == p.rx && n.tx == p.tx && n.epoch_ms == epoch_ms),
{
}

/// The content of counters is what their fields hold.
pub proof fn points_are_fields(p: NetPrev)
    ensures
        point(None) is None,
        point(Some(p)) matches Some(q) && q.iface == p.iface@ && q.rx == p.rx && q.tx == p.tx
            && q.at_ns == p.at_ns && q.age_ms == p.age_ms,
{
}

/// What one process keeps, the next one starts from: its ticks, and its counters, as old as the
/// time between, between nothing and two minutes.
pub proof fn state_survives(c: Collector, saved_ms: u64, loaded_ms: u64, now_ns: u64)
    requires
        c.cpu_prev is Some || c.net_prev is Some,
        c.net_prev matches Some(p) ==> p.iface@.len() > 0 && text::spaceless(p.iface@) && saved_ms
            > 0,
    ensures
        ({
            let saved = cache::cache_text(c.to_save(saved_ms));
            &&& saved is Some
            &&& cache::record(saved->0).cpu == c.cpu_prev
            &&& c.net_prev is None ==> cache::record(saved->0).net is None
            &&& c.net_prev matches Some(p) ==> (cache::record(saved->0).net matches Some(n) && {
                let q = point_of(n, loaded_ms, now_ns);
                &&& q.iface == p.iface@
                &&& q.rx == p.rx
                &&& q.tx == p.tx
                &&& q.at_ns == now_ns
                &&& loaded_ms <= saved_ms ==> q.age_ms == 0
                &&& saved_ms <= loaded_ms <= saved_ms + 120_000 ==> saved_ms + q.age_ms == loaded_ms
                &&& saved_ms + 120_000 <= loaded_ms ==> q.age_ms == 120_000
            })
        }),
{
    cache::record_survives(c.to_save(saved_ms));
}

} // verus!
