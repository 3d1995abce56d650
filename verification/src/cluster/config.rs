//! The settings of an endpoint. Durations are in nanoseconds.

use vstd::prelude::*;

use crate::addr::SocketAddr;
use crate::backoff::Backoff;
use crate::cluster::membership;
use crate::cluster::reachability;

verus! {

/// The smallest frame size an endpoint can work with: a snapshot's smallest chunk, of members or of
/// statements, has to fit.
pub const MIN_FRAME_SIZE: usize = 112;

/// The settings of an endpoint.
#[derive(Debug, Clone, Copy, PartialEq, Eq, Structural)]
pub struct EndpointConfig {
    /// The address other nodes reach this node at; together with a per-process incarnation it is
    /// this node's identity.
    pub advertised_addr: SocketAddr,
    /// How many messages and replies may wait for one peer; other frames are not counted.
    pub outbound_capacity: usize,
    /// The most data streams towards one peer.
    pub max_streams_per_peer: usize,
    /// The largest frame sent or received.
    pub max_frame_size: usize,
    /// How often the membership work runs; it bounds a handshake too.
    pub heartbeat_interval: u128,
    /// How often remote watches are re-asserted.
    pub watch_refresh_interval: u128,
    /// How long a Down member is listed.
    pub down_retention: u128,
    /// How many addresses keep a watermark of their greatest Down incarnation.
    pub down_watermarks: usize,
    /// How long leaving waits for the outbound queues.
    pub leave_timeout: u128,
    /// The delays between connection attempts.
    pub reconnect_backoff: Backoff,
    /// How many attempts an address which is no member's gets.
    pub max_connect_attempts: u32,
}

/// The [EndpointConfig] is invalid.
#[derive(Debug, Clone, Copy, PartialEq, Eq, Structural)]
pub enum InvalidEndpointConfig {
    /// The `max_frame_size` cannot hold a snapshot's smallest chunk.
    MaxFrameSizeTooSmall { max_frame_size: usize, min: usize },
    /// The `heartbeat_interval` is zero.
    ZeroHeartbeatInterval,
    /// The `watch_refresh_interval` is zero.
    ZeroWatchRefreshInterval,
}

/// The endpoint cannot be started.
#[derive(Debug, Clone, Copy, PartialEq, Eq, Structural)]
pub enum StartError {
    /// The endpoint has already been started; there is one per process.
    AlreadyStarted,
    /// The given configuration is invalid.
    Config(InvalidEndpointConfig),
}

/// What is wrong with these settings, if anything.
pub open spec fn validity(
    max_frame_size: usize,
    heartbeat_interval: u128,
    watch_refresh_interval: u128,
) -> Result<(), InvalidEndpointConfig> {
    if max_frame_size < MIN_FRAME_SIZE {
        Err(InvalidEndpointConfig::MaxFrameSizeTooSmall { max_frame_size, min: MIN_FRAME_SIZE })
    } else if heartbeat_interval == 0 {
        Err(InvalidEndpointConfig::ZeroHeartbeatInterval)
    } else if watch_refresh_interval == 0 {
        Err(InvalidEndpointConfig::ZeroWatchRefreshInterval)
    } else {
        Ok(())
    }
}

impl EndpointConfig {
    pub const DEFAULT_OUTBOUND_CAPACITY: usize = 8_192;

    pub const DEFAULT_MAX_STREAMS_PER_PEER: usize = 16;

    pub const DEFAULT_MAX_FRAME_SIZE: usize = 1_048_576;

    pub const DEFAULT_HEARTBEAT_INTERVAL: u128 = 1_000_000_000;

    pub const DEFAULT_WATCH_REFRESH_INTERVAL: u128 = 2_000_000_000;

    pub const DEFAULT_DOWN_RETENTION: u128 = 300_000_000_000;

    pub const DEFAULT_DOWN_WATERMARKS: usize = 4_096;

    pub const DEFAULT_LEAVE_TIMEOUT: u128 = 3_000_000_000;

    pub const DEFAULT_RECONNECT_BACKOFF_MIN: u128 = 250_000_000;

    pub const DEFAULT_RECONNECT_BACKOFF_MAX: u128 = 3_000_000_000;

    pub const DEFAULT_MAX_CONNECT_ATTEMPTS: u32 = 8;

    /// The settings with the given advertised address and every other one at its default.
    pub fn new(advertised_addr: SocketAddr) -> (config: Self)
        ensures
            config.advertised_addr == advertised_addr,
            config.outbound_capacity == Self::DEFAULT_OUTBOUND_CAPACITY,
            config.max_streams_per_peer == Self::DEFAULT_MAX_STREAMS_PER_PEER,
            config.max_frame_size == Self::DEFAULT_MAX_FRAME_SIZE,
            config.heartbeat_interval == Self::DEFAULT_HEARTBEAT_INTERVAL,
            config.watch_refresh_interval == Self::DEFAULT_WATCH_REFRESH_INTERVAL,
            config.down_retention == Self::DEFAULT_DOWN_RETENTION,
            config.down_watermarks == Self::DEFAULT_DOWN_WATERMARKS,
            config.leave_timeout == Self::DEFAULT_LEAVE_TIMEOUT,
            config.reconnect_backoff.spec_min() == Self::DEFAULT_RECONNECT_BACKOFF_MIN,
            config.reconnect_backoff.spec_max() == Self::DEFAULT_RECONNECT_BACKOFF_MAX,
            config.max_connect_attempts == Self::DEFAULT_MAX_CONNECT_ATTEMPTS,
            config.validated() == Ok::<(), InvalidEndpointConfig>(()),
    {
        let reconnect_backoff = Backoff::new(
            Self::DEFAULT_RECONNECT_BACKOFF_MIN,
            Self::DEFAULT_RECONNECT_BACKOFF_MAX,
        ).unwrap();
        EndpointConfig {
            advertised_addr,
            outbound_capacity: Self::DEFAULT_OUTBOUND_CAPACITY,
            max_streams_per_peer: Self::DEFAULT_MAX_STREAMS_PER_PEER,
            max_frame_size: Self::DEFAULT_MAX_FRAME_SIZE,
            heartbeat_interval: Self::DEFAULT_HEARTBEAT_INTERVAL,
            watch_refresh_interval: Self::DEFAULT_WATCH_REFRESH_INTERVAL,
            down_retention: Self::DEFAULT_DOWN_RETENTION,
            down_watermarks: Self::DEFAULT_DOWN_WATERMARKS,
            leave_timeout: Self::DEFAULT_LEAVE_TIMEOUT,
            reconnect_backoff,
            max_connect_attempts: Self::DEFAULT_MAX_CONNECT_ATTEMPTS,
        }
    }

    pub open spec fn validated(self) -> Result<(), InvalidEndpointConfig> {
        validity(self.max_frame_size, self.heartbeat_interval, self.watch_refresh_interval)
    }

    /// The delay before the attempt which follows so many failed ones.
    pub open spec fn spec_reconnect_backoff(self, attempts: u32) -> nat {
        self.reconnect_backoff.spec_duration(
            if attempts == 0 {
                0
            } else {
                (attempts - 1) as u32
            },
        )
    }

    /// The delay before the attempt which follows so many failed ones.
    pub fn reconnect_backoff(&self, attempts: u32) -> (delay: u128)
        ensures
            delay == self.spec_reconnect_backoff(attempts),
    {
        let step: u32 = if attempts == 0 { 0 } else { attempts - 1 };
        self.reconnect_backoff.duration(step)
    }

    pub open spec fn spec_data_streams(self, offered: Option<usize>) -> usize {
        match offered {
            Some(streams) => if self.max_streams_per_peer <= streams {
                self.max_streams_per_peer
            } else {
                streams
            },
            None => 0,
        }
    }

    /// How many data streams a lane has: what the transport offers, up to the limit, and none where
    /// it offers no such streams.
    pub fn data_streams(&self, offered: Option<usize>) -> (streams: usize)
        ensures
            streams == self.spec_data_streams(offered),
    {
        match offered {
            Some(streams) => if self.max_streams_per_peer <= streams {
                self.max_streams_per_peer
            } else {
                streams
            },
            None => 0,
        }
    }
}

/// Whether the settings can be worked with.
pub fn validate(config: &EndpointConfig) -> (r: Result<(), InvalidEndpointConfig>)
    ensures
        r == config.validated(),
{
    if config.max_frame_size < MIN_FRAME_SIZE {
        return Err(
            InvalidEndpointConfig::MaxFrameSizeTooSmall {
                max_frame_size: config.max_frame_size,
                min: MIN_FRAME_SIZE,
            },
        );
    }
    if config.heartbeat_interval == 0 {
        return Err(InvalidEndpointConfig::ZeroHeartbeatInterval);
    }
    if config.watch_refresh_interval == 0 {
        return Err(InvalidEndpointConfig::ZeroWatchRefreshInterval);
    }
    Ok(())
}

/// A setting which may be left out.
pub open spec fn given_or<T>(given: Option<T>, default: T) -> T {
    match given {
        Some(value) => value,
        None => default,
    }
}

/// The setting which was given, or its default.
pub fn or_default<T: Copy>(given: Option<T>, default: T) -> (value: T)
    ensures
        value == given_or(given, default),
{
    match given {
        Some(value) => value,
        None => default,
    }
}

/// The settings of an endpoint as a configuration file gives them: all but the address may be left
/// out, and none of them is checked.
#[derive(Debug, Clone, Copy, PartialEq, Eq, Structural)]
pub struct UncheckedEndpointConfig {
    pub advertised_addr: SocketAddr,
    pub outbound_capacity: Option<usize>,
    pub max_streams_per_peer: Option<usize>,
    pub max_frame_size: Option<usize>,
    pub heartbeat_interval: Option<u128>,
    pub watch_refresh_interval: Option<u128>,
    pub down_retention: Option<u128>,
    pub down_watermarks: Option<usize>,
    pub leave_timeout: Option<u128>,
    pub reconnect_backoff: Option<Backoff>,
    pub max_connect_attempts: Option<u32>,
}

impl UncheckedEndpointConfig {
    /// The settings are the given ones, and the defaults where none was given.
    pub open spec fn is_completed(self, config: EndpointConfig) -> bool {
        &&& config.advertised_addr == self.advertised_addr
        &&& config.outbound_capacity == given_or(
            self.outbound_capacity,
            EndpointConfig::DEFAULT_OUTBOUND_CAPACITY,
        )
        &&& config.max_streams_per_peer == given_or(
            self.max_streams_per_peer,
            EndpointConfig::DEFAULT_MAX_STREAMS_PER_PEER,
        )
        &&& config.max_frame_size == given_or(
            self.max_frame_size,
            EndpointConfig::DEFAULT_MAX_FRAME_SIZE,
        )
        &&& config.heartbeat_interval == given_or(
            self.heartbeat_interval,
            EndpointConfig::DEFAULT_HEARTBEAT_INTERVAL,
        )
        &&& config.watch_refresh_interval == given_or(
            self.watch_refresh_interval,
            EndpointConfig::DEFAULT_WATCH_REFRESH_INTERVAL,
        )
        &&& config.down_retention == given_or(
            self.down_retention,
            EndpointConfig::DEFAULT_DOWN_RETENTION,
        )
        &&& config.down_watermarks == given_or(
            self.down_watermarks,
            EndpointConfig::DEFAULT_DOWN_WATERMARKS,
        )
        &&& config.leave_timeout == given_or(
            self.leave_timeout,
            EndpointConfig::DEFAULT_LEAVE_TIMEOUT,
        )
        &&& config.max_connect_attempts == given_or(
            self.max_connect_attempts,
            EndpointConfig::DEFAULT_MAX_CONNECT_ATTEMPTS,
        )
        &&& match self.reconnect_backoff {
            Some(backoff) => config.reconnect_backoff == backoff,
            None => config.reconnect_backoff.spec_min()
                == EndpointConfig::DEFAULT_RECONNECT_BACKOFF_MIN
                && config.reconnect_backoff.spec_max()
                == EndpointConfig::DEFAULT_RECONNECT_BACKOFF_MAX,
        }
    }

    /// The settings, completed by the defaults and found valid.
    pub fn check(self) -> (r: Result<EndpointConfig, InvalidEndpointConfig>)
        ensures
            ({
                let validity = validity(
                    given_or(self.max_frame_size, EndpointConfig::DEFAULT_MAX_FRAME_SIZE),
                    given_or(self.heartbeat_interval, EndpointConfig::DEFAULT_HEARTBEAT_INTERVAL),
                    given_or(
                        self.watch_refresh_interval,
                        EndpointConfig::DEFAULT_WATCH_REFRESH_INTERVAL,
                    ),
                );
                match r {
                    Ok(config) => validity is Ok && self.is_completed(config),
                    Err(error) => validity == Err::<(), InvalidEndpointConfig>(error),
                }
            }),
    {
        let defaults = EndpointConfig::new(self.advertised_addr);
        let config = EndpointConfig {
            advertised_addr: self.advertised_addr,
            outbound_capacity: or_default(self.outbound_capacity, defaults.outbound_capacity),
            max_streams_per_peer: or_default(
                self.max_streams_per_peer,
                defaults.max_streams_per_peer,
            ),
            max_frame_size: or_default(self.max_frame_size, defaults.max_frame_size),
            heartbeat_interval: or_default(self.heartbeat_interval, defaults.heartbeat_interval),
            watch_refresh_interval: or_default(
                self.watch_refresh_interval,
                defaults.watch_refresh_interval,
            ),
            down_retention: or_default(self.down_retention, defaults.down_retention),
            down_watermarks: or_default(self.down_watermarks, defaults.down_watermarks),
            leave_timeout: or_default(self.leave_timeout, defaults.leave_timeout),
            reconnect_backoff: or_default(self.reconnect_backoff, defaults.reconnect_backoff),
            max_connect_attempts: or_default(
                self.max_connect_attempts,
                defaults.max_connect_attempts,
            ),
        };
        match validate(&config) {
            Ok(()) => Ok(config),
            Err(error) => Err(error),
        }
    }
}

/// The smallest frame size is the greater one of those the two kinds of snapshots ask for.
pub proof fn the_smallest_frame_holds_a_chunk()
    ensures
        membership::MIN_FRAME_SIZE <= MIN_FRAME_SIZE,
        reachability::MIN_FRAME_SIZE <= MIN_FRAME_SIZE,
        MIN_FRAME_SIZE == membership::MIN_FRAME_SIZE || MIN_FRAME_SIZE
            == reachability::MIN_FRAME_SIZE,
{
}

/// The first attempt to reconnect waits the least delay, and every further one twice as long as the
/// one before, up to the longest.
pub proof fn reconnecting_backs_off(config: EndpointConfig, attempts: u32)
    requires
        1 <= attempts < u32::MAX,
        0 < config.reconnect_backoff.spec_min() <= config.reconnect_backoff.spec_max(),
    ensures
        config.spec_reconnect_backoff(1) == config.reconnect_backoff.spec_min(),
        config.spec_reconnect_backoff((attempts + 1) as u32) == (if 2
            * config.spec_reconnect_backoff(attempts) < config.reconnect_backoff.spec_max() {
            2 * config.spec_reconnect_backoff(attempts)
        } else {
            config.reconnect_backoff.spec_max() as nat
        }),
{
    crate::backoff::the_delay_doubles_up_to_the_cap(
        config.reconnect_backoff,
        (attempts - 1) as u32,
    );
}

/// A configuration is valid if a frame holds what it must and neither interval is zero; of several
/// faults the frame size is named first, then the heartbeat.
pub proof fn a_configuration_is_checked(config: EndpointConfig)
    ensures
        config.validated() is Ok <==> config.max_frame_size >= MIN_FRAME_SIZE
            && config.heartbeat_interval > 0 && config.watch_refresh_interval > 0,
        config.max_frame_size < MIN_FRAME_SIZE ==> config.validated() == Err::<
            (),
            InvalidEndpointConfig,
        >(
            InvalidEndpointConfig::MaxFrameSizeTooSmall {
                max_frame_size: config.max_frame_size,
                min: MIN_FRAME_SIZE,
            },
        ),
        config.max_frame_size >= MIN_FRAME_SIZE && config.heartbeat_interval == 0
            ==> config.validated() == Err::<(), InvalidEndpointConfig>(
            InvalidEndpointConfig::ZeroHeartbeatInterval,
        ),
        config.max_frame_size >= MIN_FRAME_SIZE && config.heartbeat_interval > 0
            && config.watch_refresh_interval == 0 ==> config.validated() == Err::<
            (),
            InvalidEndpointConfig,
        >(InvalidEndpointConfig::ZeroWatchRefreshInterval),
{
}

/// As many data streams are used as both ends offer, and none where the transport has no streams.
pub proof fn both_ends_bound_the_streams(config: EndpointConfig, offered: Option<usize>)
    ensures
        offered is None ==> config.spec_data_streams(offered) == 0,
        offered matches Some(streams) ==> {
            &&& config.spec_data_streams(offered) <= streams
            &&& config.spec_data_streams(offered) <= config.max_streams_per_peer
            &&& config.spec_data_streams(offered) == streams || config.spec_data_streams(offered)
                == config.max_streams_per_peer
        },
{
}

} // verus!
