//! Settings: how text from the environment becomes numbers within bounds.

use crate::auth::RelayAuthConfig;
use crate::text::{
    chars_of, decimal, decimals_read_back, is_digit, is_text, lower, lowered, only_digits_are_numbers,
    opt_text, opt_view, parse_decimal, read_decimal, trim, trimmed, trimming_keeps_what_is_not_white,
    trimming_takes_off_both_ends, white,
    white_space_in_ascii,
};
use vstd::prelude::*;
use vstd::string::*;

verus! {

pub const DEFAULT_PORT: u16 = 51821;

pub const DEFAULT_STATS_PORT: u16 = 51822;

/// The port of the public health probe.
pub const DEFAULT_HEALTH_PORT: u16 = 8081;

pub const DEFAULT_FLOW_CHANNEL_CAPACITY: usize = 256;

pub const MIN_FLOW_CHANNEL_CAPACITY: usize = 8;

pub const MAX_FLOW_CHANNEL_CAPACITY: usize = 4096;

pub const DEFAULT_POOL_SLOTS: usize = 8192;

pub const MIN_POOL_SLOTS: usize = 512;

pub const MAX_POOL_SLOTS: usize = 262_144;

pub const DEFAULT_SHARD_QUEUE_CAP: usize = 4096;

pub const MIN_SHARD_QUEUE_CAP: usize = 256;

pub const MAX_SHARD_QUEUE_CAP: usize = 262_144;

pub const DEFAULT_TX_QUEUE_CAP: usize = 8192;

pub const MIN_TX_QUEUE_CAP: usize = 256;

pub const MAX_TX_QUEUE_CAP: usize = 262_144;

pub const DEFAULT_SOCKET_BUFFER_BYTES: usize = 4_194_304;

pub const DEFAULT_FLOW_SOCKET_BUFFER_BYTES: usize = 2_097_152;

pub const MIN_SOCKET_BUFFER_BYTES: usize = 262_144;

pub const MAX_SOCKET_BUFFER_BYTES: usize = 67_108_864;

pub const MAX_SHARDS: usize = 256;

/// The nearest number between two bounds.
pub open spec fn clamped(value: int, min: int, max: int) -> int {
    if value < min {
        min
    } else if value > max {
        max
    } else {
        value
    }
}

/// The number that a setting gives, if it gives one.
pub open spec fn setting_of(raw: Option<Seq<char>>) -> Option<nat> {
    match raw {
        Some(s) => parse_decimal(trimmed(s), usize::MAX as nat),
        None => None,
    }
}

/// The number that a setting gives, or the default, within bounds.
pub open spec fn bounded_setting(raw: Option<Seq<char>>, default: int, min: int, max: int) -> int {
    match setting_of(raw) {
        Some(n) => clamped(n as int, min, max),
        None => clamped(default, min, max),
    }
}

/// How many packets a flow's channel holds.
pub open spec fn flow_channel_capacity_of(raw: Option<Seq<char>>) -> int {
    bounded_setting(raw, 256, 8, 4096)
}

/// How many buffers the pool has.
pub open spec fn pool_slots_of(raw: Option<Seq<char>>) -> int {
    bounded_setting(raw, 8192, 512, 262_144)
}

/// How many messages a shard's inbox holds.
pub open spec fn shard_queue_cap_of(raw: Option<Seq<char>>) -> int {
    bounded_setting(raw, 4096, 256, 262_144)
}

/// How many packets wait to be sent to clients.
pub open spec fn tx_queue_cap_of(raw: Option<Seq<char>>) -> int {
    bounded_setting(raw, 8192, 256, 262_144)
}

/// A buffer of the main socket.
pub open spec fn socket_buffer_of(raw: Option<Seq<char>>) -> int {
    bounded_setting(raw, 4_194_304, 262_144, 67_108_864)
}

/// A buffer of a flow's socket.
pub open spec fn flow_socket_buffer_of(raw: Option<Seq<char>>) -> int {
    bounded_setting(raw, 2_097_152, 262_144, 67_108_864)
}

/// How many shards there are on a machine with `cores` cores.
pub open spec fn shard_count_of(raw: Option<Seq<char>>, cores: int) -> int {
    bounded_setting(
        raw,
        if cores < 1 {
            1
        } else {
            cores
        },
        1,
        256,
    )
}

/// A port from a setting, as it stands; the default, if it is none.
pub open spec fn port_of(raw: Option<Seq<char>>, default: u16) -> u16 {
    match raw {
        Some(s) => match parse_decimal(s, 0xFFFF) {
            Some(n) => n as u16,
            None => default,
        },
        None => default,
    }
}

/// A token from a setting, unless it is blank.
pub open spec fn token_of(raw: Option<String>) -> Option<String> {
    match raw {
        Some(s) => if trimmed(s@).len() == 0 {
            None
        } else {
            raw
        },
        None => None,
    }
}

/// Whether a setting switches something on.
pub open spec fn switched_on(raw: Option<Seq<char>>) -> bool {
    match raw {
        Some(s) => lowered(trimmed(s)) == "true"@,
        None => false,
    }
}

/// The port of the health probe; zero switches it off.
pub open spec fn health_port_of(raw: Option<Seq<char>>) -> u16 {
    match raw {
        Some(s) => match parse_decimal(trimmed(s), 0xFFFF) {
            Some(n) => n as u16,
            None => DEFAULT_HEALTH_PORT,
        },
        None => DEFAULT_HEALTH_PORT,
    }
}

/// What an argument of the command line asks for.
pub open spec fn cli_request(first: Option<Seq<char>>) -> CliRequest {
    match first {
        None => CliRequest::Run,
        Some(arg) => if arg == "-V"@ || arg == "--version"@ {
            CliRequest::Version
        } else if arg == "-h"@ || arg == "--help"@ {
            CliRequest::Help
        } else {
            CliRequest::Unknown
        },
    }
}

pub fn clamp_usize(value: usize, min: usize, max: usize) -> (r: usize)
    requires
        min <= max,
    ensures
        r == clamped(value as int, min as int, max as int),
{
    if value < min {
        min
    } else if value > max {
        max
    } else {
        value
    }
}

/// Reads a number from a setting.
pub fn parse_usize_env(raw: Option<&str>) -> (r: Option<usize>)
    ensures
        match r {
            Some(n) => setting_of(opt_view(raw)) == Some(n as nat),
            None => setting_of(opt_view(raw)) is None,
        },
{
    match raw {
        None => None,
        Some(text) => {
            let chars = chars_of(text);
            match read_decimal(trim(&chars), usize::MAX as u64) {
                Some(n) => Some(n as usize),
                None => None,
            }
        },
    }
}

fn bounded(raw: Option<&str>, default: usize, min: usize, max: usize) -> (r: usize)
    requires
        min <= max,
    ensures
        r == bounded_setting(opt_view(raw), default as int, min as int, max as int),
{
    match parse_usize_env(raw) {
        Some(n) => clamp_usize(n, min, max),
        None => clamp_usize(default, min, max),
    }
}

/// How many packets a flow's channel holds.
pub fn parse_flow_channel_capacity(raw: Option<String>) -> (r: usize)
    ensures
        r == flow_channel_capacity_of(opt_text(raw)),
{
    match raw {
        Some(text) => {
            let r: usize = bounded(
                Some(text.as_str()),
                DEFAULT_FLOW_CHANNEL_CAPACITY,
                MIN_FLOW_CHANNEL_CAPACITY,
                MAX_FLOW_CHANNEL_CAPACITY,
            );
            r
        },
        None => DEFAULT_FLOW_CHANNEL_CAPACITY,
    }
}

/// How many buffers the pool has.
pub fn get_pool_slots(raw: Option<&str>) -> (r: usize)
    ensures
        r == pool_slots_of(opt_view(raw)),
{
    bounded(raw, DEFAULT_POOL_SLOTS, MIN_POOL_SLOTS, MAX_POOL_SLOTS)
}

/// How many messages a shard's inbox holds.
pub fn get_shard_queue_cap(raw: Option<&str>) -> (r: usize)
    ensures
        r == shard_queue_cap_of(opt_view(raw)),
{
    bounded(raw, DEFAULT_SHARD_QUEUE_CAP, MIN_SHARD_QUEUE_CAP, MAX_SHARD_QUEUE_CAP)
}

/// How many packets wait to be sent to clients.
pub fn get_tx_queue_cap(raw: Option<&str>) -> (r: usize)
    ensures
        r == tx_queue_cap_of(opt_view(raw)),
{
    bounded(raw, DEFAULT_TX_QUEUE_CAP, MIN_TX_QUEUE_CAP, MAX_TX_QUEUE_CAP)
}

/// The receive buffer of the main socket.
pub fn get_socket_rcvbuf_bytes(raw: Option<&str>) -> (r: usize)
    ensures
        r == socket_buffer_of(opt_view(raw)),
{
    bounded(raw, DEFAULT_SOCKET_BUFFER_BYTES, MIN_SOCKET_BUFFER_BYTES, MAX_SOCKET_BUFFER_BYTES)
}

/// The send buffer of the main socket.
pub fn get_socket_sndbuf_bytes(raw: Option<&str>) -> (r: usize)
    ensures
        r == socket_buffer_of(opt_view(raw)),
{
    bounded(raw, DEFAULT_SOCKET_BUFFER_BYTES, MIN_SOCKET_BUFFER_BYTES, MAX_SOCKET_BUFFER_BYTES)
}

/// The receive buffer of a flow's socket.
pub fn get_flow_socket_rcvbuf_bytes(raw: Option<&str>) -> (r: usize)
    ensures
        r == flow_socket_buffer_of(opt_view(raw)),
{
    bounded(raw, DEFAULT_FLOW_SOCKET_BUFFER_BYTES, MIN_SOCKET_BUFFER_BYTES, MAX_SOCKET_BUFFER_BYTES)
}

/// The send buffer of a flow's socket.
pub fn get_flow_socket_sndbuf_bytes(raw: Option<&str>) -> (r: usize)
    ensures
        r == flow_socket_buffer_of(opt_view(raw)),
{
    bounded(raw, DEFAULT_FLOW_SOCKET_BUFFER_BYTES, MIN_SOCKET_BUFFER_BYTES, MAX_SOCKET_BUFFER_BYTES)
}

/// `num_cpus::get_physical`: the machine's number of cores; nothing is claimed of it.
#[verifier::external_body]
fn physical_cores() -> (r: usize) {
    num_cpus::get_physical()
}

/// How many shards there are on a machine with `cores` cores.
pub fn shard_count_for(raw: Option<&str>, cores: usize) -> (r: usize)
    ensures
        r == shard_count_of(opt_view(raw), cores as int),
{
    bounded(
        raw,
        if cores < 1 {
            1
        } else {
            cores
        },
        1,
        MAX_SHARDS,
    )
}

/// How many shards there are: as many as are set, or one for each core.
pub fn get_shard_count(raw: Option<&str>) -> (r: usize)
    ensures
        1 <= r <= 256,
        setting_of(opt_view(raw)) matches Some(n) ==> r == clamped(n as int, 1, 256),
{
    shard_count_for(raw, physical_cores())
}

/// Which implementation moves the packets.
#[derive(Clone, Copy, PartialEq, Eq, Structural, Debug)]
pub enum RelayDatapath {
    V1,
    V2,
}

/// The datapath that a setting asks for; anything that is not known asks for the
/// second.
pub open spec fn datapath_of(raw: Option<Seq<char>>) -> RelayDatapath {
    match raw {
        Some(s) => if lowered(trimmed(s)) == "v1"@ || lowered(trimmed(s)) == "tokio"@ {
            RelayDatapath::V1
        } else {
            RelayDatapath::V2
        },
        None => RelayDatapath::V2,
    }
}

pub fn get_relay_datapath(raw: Option<&str>) -> (r: RelayDatapath)
    ensures
        r == datapath_of(opt_view(raw)),
{
    match raw {
        Some(text) => {
            let chars = chars_of(text);
            let name = lower(trim(&chars));
            if is_text(&name, "v1") || is_text(&name, "tokio") {
                RelayDatapath::V1
            } else {
                RelayDatapath::V2
            }
        },
        None => RelayDatapath::V2,
    }
}

/// A port from a setting, as it stands; the default, if it is none.
pub fn parse_port(raw: Option<&str>, default: u16) -> (r: u16)
    ensures
        r == port_of(opt_view(raw), default),
{
    match raw {
        Some(text) => {
            let chars = chars_of(text);
            match read_decimal(&chars, 0xFFFF) {
                Some(n) => n as u16,
                None => default,
            }
        },
        None => default,
    }
}

/// A token from a setting, unless it is blank.
pub fn usable_token(raw: Option<String>) -> (r: Option<String>)
    ensures
        r == token_of(raw),
{
    match raw {
        Some(token) => {
            let chars = chars_of(token.as_str());
            if trim(&chars).len() == 0 {
                None
            } else {
                Some(token)
            }
        },
        None => None,
    }
}

/// The numbers that tune the second datapath.
#[derive(Clone, Copy, PartialEq, Eq, Structural, Debug)]
pub struct RelayV2Tuning {
    pub shard_count: usize,
    pub pool_slots: usize,
    pub shard_queue_cap: usize,
    pub tx_queue_cap: usize,
    pub socket_rcvbuf_bytes: usize,
    pub socket_sndbuf_bytes: usize,
    pub flow_rcvbuf_bytes: usize,
    pub flow_sndbuf_bytes: usize,
}

/// The settings that tune the second datapath, as they were found.
#[derive(Clone, Copy)]
pub struct RelayV2Settings<'a> {
    pub shards: Option<&'a str>,
    pub pool_slots: Option<&'a str>,
    pub shard_queue: Option<&'a str>,
    pub tx_queue: Option<&'a str>,
    pub socket_rcvbuf: Option<&'a str>,
    pub socket_sndbuf: Option<&'a str>,
    pub flow_rcvbuf: Option<&'a str>,
    pub flow_sndbuf: Option<&'a str>,
}

/// Whether `r` is the tuning that the settings give; the number of shards is open where
/// none is set.
pub open spec fn tuned(settings: RelayV2Settings, r: RelayV2Tuning) -> bool {
    &&& 1 <= r.shard_count <= 256
    &&& setting_of(opt_view(settings.shards)) matches Some(n) ==> r.shard_count == clamped(
        n as int,
        1,
        256,
    )
    &&& r.pool_slots == pool_slots_of(opt_view(settings.pool_slots))
    &&& r.shard_queue_cap == shard_queue_cap_of(opt_view(settings.shard_queue))
    &&& r.tx_queue_cap == tx_queue_cap_of(opt_view(settings.tx_queue))
    &&& r.socket_rcvbuf_bytes == socket_buffer_of(opt_view(settings.socket_rcvbuf))
    &&& r.socket_sndbuf_bytes == socket_buffer_of(opt_view(settings.socket_sndbuf))
    &&& r.flow_rcvbuf_bytes == flow_socket_buffer_of(opt_view(settings.flow_rcvbuf))
    &&& r.flow_sndbuf_bytes == flow_socket_buffer_of(opt_view(settings.flow_sndbuf))
}

/// The tuning that the settings give.
pub fn relay_v2_tuning<'a>(settings: RelayV2Settings<'a>) -> (r: RelayV2Tuning)
    ensures
        tuned(settings, r),
{
    RelayV2Tuning {
        shard_count: get_shard_count(settings.shards),
        pool_slots: get_pool_slots(settings.pool_slots),
        shard_queue_cap: get_shard_queue_cap(settings.shard_queue),
        tx_queue_cap: get_tx_queue_cap(settings.tx_queue),
        socket_rcvbuf_bytes: get_socket_rcvbuf_bytes(settings.socket_rcvbuf),
        socket_sndbuf_bytes: get_socket_sndbuf_bytes(settings.socket_sndbuf),
        flow_rcvbuf_bytes: get_flow_socket_rcvbuf_bytes(settings.flow_rcvbuf),
        flow_sndbuf_bytes: get_flow_socket_sndbuf_bytes(settings.flow_sndbuf),
    }
}

/// The buffers of a socket: what was asked for and what there is.
#[derive(Clone, Copy, PartialEq, Eq, Structural, Debug)]
pub struct SocketBufferSizes {
    pub requested_rcvbuf_bytes: usize,
    pub requested_sndbuf_bytes: usize,
    pub effective_rcvbuf_bytes: usize,
    pub effective_sndbuf_bytes: usize,
}

/// The part of the running configuration that is about the second datapath.
#[derive(Clone, Copy, PartialEq, Eq, Structural, Debug)]
pub struct RelayV2RuntimeConfig {
    pub shard_count: usize,
    pub pool_slots: usize,
    pub shard_queue_cap: usize,
    pub tx_queue_cap: usize,
    pub main_socket_rcvbuf_requested: usize,
    pub main_socket_sndbuf_requested: usize,
    pub main_socket_rcvbuf_effective: usize,
    pub main_socket_sndbuf_effective: usize,
    pub flow_socket_rcvbuf_requested: usize,
    pub flow_socket_sndbuf_requested: usize,
}

/// The configuration that the relay runs with.
pub struct RelayRuntimeConfig {
    pub version: String,
    pub datapath: String,
    pub listen_port: u16,
    pub stats_port: u16,
    pub auth_mode: String,
    pub server_id: Option<String>,
    pub tcp_enabled: bool,
    pub tun_udp_enabled: bool,
    pub flow_channel_capacity: usize,
    pub v2: RelayV2RuntimeConfig,
}

/// Whether `r` is the running configuration made of these parts.
pub open spec fn describes(
    r: RelayRuntimeConfig,
    version: Seq<char>,
    datapath: RelayDatapath,
    listen_port: u16,
    stats_port: u16,
    auth_config: RelayAuthConfig,
    tcp_enabled: bool,
    tun_udp_enabled: bool,
    main_socket_buffers: SocketBufferSizes,
    flow_channel_capacity: usize,
    tuning: RelayV2Tuning,
) -> bool {
    &&& r.version@ == version
    &&& r.datapath@ == match datapath {
        RelayDatapath::V1 => "v1"@,
        RelayDatapath::V2 => "v2"@,
    }
    &&& r.listen_port == listen_port
    &&& r.stats_port == stats_port
    &&& r.auth_mode@ == auth_config.mode.name()
    &&& opt_text(r.server_id) == auth_config.server()
    &&& r.tcp_enabled == tcp_enabled
    &&& r.tun_udp_enabled == tun_udp_enabled
    &&& r.flow_channel_capacity == flow_channel_capacity
    &&& r.v2 == (RelayV2RuntimeConfig {
        shard_count: tuning.shard_count,
        pool_slots: tuning.pool_slots,
        shard_queue_cap: tuning.shard_queue_cap,
        tx_queue_cap: tuning.tx_queue_cap,
        main_socket_rcvbuf_requested: main_socket_buffers.requested_rcvbuf_bytes,
        main_socket_sndbuf_requested: main_socket_buffers.requested_sndbuf_bytes,
        main_socket_rcvbuf_effective: main_socket_buffers.effective_rcvbuf_bytes,
        main_socket_sndbuf_effective: main_socket_buffers.effective_sndbuf_bytes,
        flow_socket_rcvbuf_requested: tuning.flow_rcvbuf_bytes,
        flow_socket_sndbuf_requested: tuning.flow_sndbuf_bytes,
    })
}

/// Puts the running configuration together.
pub fn build_runtime_config(
    version: &str,
    datapath: RelayDatapath,
    listen_port: u16,
    stats_port: u16,
    auth_config: &RelayAuthConfig,
    tcp_enabled: bool,
    tun_udp_enabled: bool,
    main_socket_buffers: SocketBufferSizes,
    flow_channel_capacity: usize,
    tuning: RelayV2Tuning,
) -> (r: RelayRuntimeConfig)
    ensures
        describes(
            r,
            version@,
            datapath,
            listen_port,
            stats_port,
            *auth_config,
            tcp_enabled,
            tun_udp_enabled,
            main_socket_buffers,
            flow_channel_capacity,
            tuning,
        ),
{
    let server_id: Option<String> = match &auth_config.server_id {
        Some(id) => Some(id.clone()),
        None => None,
    };
    RelayRuntimeConfig {
        version: version.to_owned(),
        datapath: match datapath {
            RelayDatapath::V1 => "v1".to_owned(),
            RelayDatapath::V2 => "v2".to_owned(),
        },
        listen_port,
        stats_port,
        auth_mode: auth_config.mode.as_str().to_owned(),
        server_id,
        tcp_enabled,
        tun_udp_enabled,
        flow_channel_capacity,
        v2: RelayV2RuntimeConfig {
            shard_count: tuning.shard_count,
            pool_slots: tuning.pool_slots,
            shard_queue_cap: tuning.shard_queue_cap,
            tx_queue_cap: tuning.tx_queue_cap,
            main_socket_rcvbuf_requested: main_socket_buffers.requested_rcvbuf_bytes,
            main_socket_sndbuf_requested: main_socket_buffers.requested_sndbuf_bytes,
            main_socket_rcvbuf_effective: main_socket_buffers.effective_rcvbuf_bytes,
            main_socket_sndbuf_effective: main_socket_buffers.effective_sndbuf_bytes,
            flow_socket_rcvbuf_requested: tuning.flow_rcvbuf_bytes,
            flow_socket_sndbuf_requested: tuning.flow_sndbuf_bytes,
        },
    }
}

/// Whether a setting switches something on.
pub fn is_switched_on(raw: Option<&str>) -> (r: bool)
    ensures
        r == switched_on(opt_view(raw)),
{
    match raw {
        Some(text) => {
            let chars = chars_of(text);
            let word = lower(trim(&chars));
            is_text(&word, "true")
        },
        None => false,
    }
}

/// The port of the health probe; zero switches it off.
pub fn health_port(raw: Option<&str>) -> (r: u16)
    ensures
        r == health_port_of(opt_view(raw)),
{
    match raw {
        Some(text) => {
            let chars = chars_of(text);
            match read_decimal(trim(&chars), 0xFFFF) {
                Some(n) => n as u16,
                None => DEFAULT_HEALTH_PORT,
            }
        },
        None => DEFAULT_HEALTH_PORT,
    }
}

/// What the first argument of the command line asks for.
#[derive(Clone, Copy, PartialEq, Eq, Structural, Debug)]
pub enum CliRequest {
    Run,
    Version,
    Help,
    Unknown,
}

pub fn handle_cli_args(first: Option<&str>) -> (r: CliRequest)
    ensures
        r == cli_request(opt_view(first)),
{
    match first {
        None => CliRequest::Run,
        Some(arg) => {
            let chars = chars_of(arg);
            if is_text(&chars, "-V") || is_text(&chars, "--version") {
                CliRequest::Version
            } else if is_text(&chars, "-h") || is_text(&chars, "--help") {
                CliRequest::Help
            } else {
                CliRequest::Unknown
            }
        },
    }
}

/// A setting that is a number in decimal, with white space around it or not, gives that
/// number, or the nearest bound if it is outside the bounds; without a number it gives the
/// default.
pub proof fn settings_stay_within_their_bounds(
    left: Seq<char>,
    n: u32,
    right: Seq<char>,
    default: int,
    min: int,
    max: int,
)
    requires
        forall|i: int| 0 <= i < left.len() ==> white(#[trigger] left[i]),
        forall|i: int| 0 <= i < right.len() ==> white(#[trigger] right[i]),
        min <= default <= max,
    ensures
        ({
            let r = bounded_setting(Some(left + decimal(n as nat) + right), default, min, max);
            &&& min <= r <= max
            &&& min <= n <= max ==> r == n
            &&& n < min ==> r == min
            &&& n > max ==> r == max
        }),
        bounded_setting(None, default, min, max) == default,
        left.len() > 0 ==> bounded_setting(Some(left), default, min, max) == default,
{
    lemma_setting(left, n, right);
    let e = Seq::<char>::empty();
    trimming_takes_off_both_ends(left, e, e);
    assert(left + e + e =~= left);
    only_digits_are_numbers(e, 0, usize::MAX as nat);
}

proof fn lemma_setting(left: Seq<char>, n: u32, right: Seq<char>)
    requires
        forall|i: int| 0 <= i < left.len() ==> white(#[trigger] left[i]),
        forall|i: int| 0 <= i < right.len() ==> white(#[trigger] right[i]),
    ensures
        trimmed(left + decimal(n as nat) + right) == decimal(n as nat),
        setting_of(Some(left + decimal(n as nat) + right)) == Some(n as nat),
{
    let d = decimal(n as nat);
    decimals_read_back(n as nat, usize::MAX as nat);
    assert(is_digit(d[0]) && is_digit(d[d.len() - 1]));
    white_space_in_ascii(d[0]);
    white_space_in_ascii(d.last());
    trimming_takes_off_both_ends(left, d, right);
}

/// The settings and their defaults: a number that is within the bounds is taken as it is.
pub proof fn settings_have_their_defaults(n: u32)
    ensures
        ({
            let s = Some(decimal(n as nat));
            let within = |low: int, high: int|
                if n < low {
                    low
                } else if n > high {
                    high
                } else {
                    n as int
                };
            &&& flow_channel_capacity_of(None) == 256 && flow_channel_capacity_of(s) == within(8, 4096)
            &&& pool_slots_of(None) == 8192 && pool_slots_of(s) == within(512, 262_144)
            &&& shard_queue_cap_of(None) == 4096 && shard_queue_cap_of(s) == within(256, 262_144)
            &&& tx_queue_cap_of(None) == 8192 && tx_queue_cap_of(s) == within(256, 262_144)
            &&& socket_buffer_of(None) == 4 * 1024 * 1024 && socket_buffer_of(s) == within(
                262_144,
                67_108_864,
            )
            &&& flow_socket_buffer_of(None) == 2 * 1024 * 1024 && flow_socket_buffer_of(s) == within(
                262_144,
                67_108_864,
            )
            &&& shard_count_of(s, 0) == within(1, 256)
        }),
{
    let e = Seq::<char>::empty();
    let d = decimal(n as nat);
    lemma_setting(e, n, e);
    assert(e + d + e =~= d);
}

/// Where no number of shards is set there is one for each core, at least one and at most
/// 256.
pub proof fn every_core_has_a_shard(cores: int)
    ensures
        1 <= cores <= 256 ==> shard_count_of(None, cores) == cores,
        cores < 1 ==> shard_count_of(None, cores) == 1,
        cores > 256 ==> shard_count_of(None, cores) == 256,
{
}

/// A port in decimal is that port; what is no port leaves the default. The health probe's
/// may have white space around it.
pub proof fn ports_are_numbers(n: u16, default: u16, left: Seq<char>, right: Seq<char>)
    requires
        forall|i: int| 0 <= i < left.len() ==> white(#[trigger] left[i]),
        forall|i: int| 0 <= i < right.len() ==> white(#[trigger] right[i]),
    ensures
        port_of(Some(decimal(n as nat)), default) == n,
        port_of(None, default) == default,
        port_of(Some(decimal(n as nat + 0x1_0000)), default) == default,
        left.len() > 0 ==> port_of(Some(left + decimal(n as nat) + right), default) == default,
        health_port_of(Some(left + decimal(n as nat) + right)) == n,
        health_port_of(None) == 8081,
        health_port_of(Some(decimal(n as nat + 0x1_0000))) == 8081,
{
    let e = Seq::<char>::empty();
    let big = (n as u32 + 0x1_0000) as u32;
    decimals_read_back(n as nat, 0xFFFF);
    decimals_read_back(n as nat + 0x1_0000, 0xFFFF);
    lemma_setting(left, n as u32, right);
    lemma_setting(e, big, e);
    assert(e + decimal(big as nat) + e =~= decimal(big as nat));
    if left.len() > 0 {
        let t = left + decimal(n as nat) + right;
        assert(t[0] == left[0]);
        if 48 <= t[0] as int <= 57 || t[0] == '+' {
            white_space_in_ascii(t[0]);
        }
        only_digits_are_numbers(t, 0, 0xFFFF);
    }
}

/// Only `true` switches something on, in whatever case and with white space around it; the
/// first datapath is asked for by `v1` and by `tokio`, and anything else means the second.
pub proof fn switches_are_words(raw: Seq<char>)
    ensures
        !switched_on(None),
        switched_on(Some(raw)) <==> lowered(trimmed(raw)) == "true"@,
        datapath_of(None) == RelayDatapath::V2,
        datapath_of(Some(raw)) == RelayDatapath::V1 <==> lowered(trimmed(raw)) == "v1"@ || lowered(
            trimmed(raw),
        ) == "tokio"@,
{
}

/// An argument asks for the version or for help, in its short or in its long form; without
/// one the relay runs, and any other is not known.
pub proof fn arguments_ask_for_one_thing(arg: Seq<char>)
    ensures
        cli_request(None) is Run,
        cli_request(Some(arg)) is Version <==> arg == "-V"@ || arg == "--version"@,
        cli_request(Some(arg)) is Help <==> arg == "-h"@ || arg == "--help"@,
        cli_request(Some(arg)) !is Run,
{
    reveal_strlit("-V");
    reveal_strlit("--version");
    reveal_strlit("-h");
    reveal_strlit("--help");
    assert("-V"@.len() == 2 && "-h"@.len() == 2 && "--version"@.len() == 9 && "--help"@.len() == 6);
    assert("-V"@[1] != "-h"@[1]);
}

/// Each number of the tuning is that of its own setting.
pub proof fn tunings_follow_their_settings(settings: RelayV2Settings, r: RelayV2Tuning, n: u32)
    requires
        tuned(settings, r),
    ensures
        ({
            let s = Some(decimal(n as nat));
            &&& opt_view(settings.shards) == s && 1 <= n <= 256 ==> r.shard_count == n
            &&& opt_view(settings.pool_slots) == s && 512 <= n <= 262_144 ==> r.pool_slots == n
            &&& opt_view(settings.shard_queue) == s && 256 <= n <= 262_144 ==> r.shard_queue_cap == n
            &&& opt_view(settings.tx_queue) == s && 256 <= n <= 262_144 ==> r.tx_queue_cap == n
            &&& 262_144 <= n <= 67_108_864 ==> {
                &&& opt_view(settings.socket_rcvbuf) == s ==> r.socket_rcvbuf_bytes == n
                &&& opt_view(settings.socket_sndbuf) == s ==> r.socket_sndbuf_bytes == n
                &&& opt_view(settings.flow_rcvbuf) == s ==> r.flow_rcvbuf_bytes == n
                &&& opt_view(settings.flow_sndbuf) == s ==> r.flow_sndbuf_bytes == n
            }
            &&& 1 <= r.shard_count <= 256
        }),
{
    let e = Seq::<char>::empty();
    let d = decimal(n as nat);
    lemma_setting(e, n, e);
    assert(e + d + e =~= d);
}

/// The running configuration says what the relay was given, each under its own name.
pub proof fn configurations_say_what_they_were_given(
    r: RelayRuntimeConfig,
    version: Seq<char>,
    datapath: RelayDatapath,
    listen_port: u16,
    stats_port: u16,
    auth_config: RelayAuthConfig,
    tcp_enabled: bool,
    tun_udp_enabled: bool,
    b: SocketBufferSizes,
    flow_channel_capacity: usize,
    t: RelayV2Tuning,
)
    requires
        describes(
            r,
            version,
            datapath,
            listen_port,
            stats_port,
            auth_config,
            tcp_enabled,
            tun_udp_enabled,
            b,
            flow_channel_capacity,
            t,
        ),
    ensures
        r.version@ == version && r.listen_port == listen_port && r.stats_port == stats_port,
        datapath_of(Some(r.datapath@)) == datapath,
        r.auth_mode@ == auth_config.mode.name() && opt_text(r.server_id) == auth_config.server(),
        r.tcp_enabled == tcp_enabled && r.tun_udp_enabled == tun_udp_enabled,
        r.flow_channel_capacity == flow_channel_capacity,
        r.v2.shard_count == t.shard_count && r.v2.pool_slots == t.pool_slots && r.v2.shard_queue_cap
            == t.shard_queue_cap && r.v2.tx_queue_cap == t.tx_queue_cap,
        r.v2.main_socket_rcvbuf_requested == b.requested_rcvbuf_bytes && r.v2.main_socket_sndbuf_requested
            == b.requested_sndbuf_bytes,
        r.v2.main_socket_rcvbuf_effective == b.effective_rcvbuf_bytes && r.v2.main_socket_sndbuf_effective
            == b.effective_sndbuf_bytes,
        r.v2.flow_socket_rcvbuf_requested == t.flow_rcvbuf_bytes && r.v2.flow_socket_sndbuf_requested
            == t.flow_sndbuf_bytes,
{
    reveal_strlit("v1");
    reveal_strlit("v2");
    reveal_strlit("tokio");
    let e = Seq::<char>::empty();
    let n = r.datapath@;
    assert(n.len() == 2 && n[0] == 'v');
    white_space_in_ascii(n[0]);
    white_space_in_ascii(n.last());
    trimming_takes_off_both_ends(e, n, e);
    assert(e + n + e =~= n);
    assert(lowered(n) =~= n);
    assert("tokio"@.len() == 5);
    assert("v1"@[1] != "v2"@[1]);
}

/// A token is taken as it stands, unless there is nothing but white space in it.
pub proof fn blank_tokens_are_none(raw: String, i: int)
    ensures
        token_of(None) is None,
        0 <= i < raw@.len() && !white(raw@[i]) ==> token_of(Some(raw)) == Some(raw),
        (forall|j: int| 0 <= j < raw@.len() ==> white(#[trigger] raw@[j])) ==> token_of(Some(raw)) is None,
{
    let s = raw@;
    let e = Seq::<char>::empty();
    if forall|j: int| 0 <= j < s.len() ==> white(#[trigger] s[j]) {
        trimming_takes_off_both_ends(s, e, e);
        assert(s + e + e =~= s);
    }
    if 0 <= i < s.len() && !white(s[i]) {
        trimming_keeps_what_is_not_white(s, i);
    }
}

} // verus!
